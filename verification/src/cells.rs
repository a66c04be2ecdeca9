//! Text by cell, kept in row and column order.
use crate::a1::Address;
use vstd::prelude::*;

verus! {

/// Row order, then column order.
pub open spec fn before(a: Address, b: Address) -> bool {
    a.0 < b.0 || a.0 == b.0 && a.1 < b.1
}

/// Whether `a` comes before `b` in row order, then column order.
pub fn comes_before(a: Address, b: Address) -> (r: bool)
    ensures
        r == before(a, b),
{
    a.0 < b.0 || a.0 == b.0 && a.1 < b.1
}

/// Text by cell: pending edits or formulas.
#[derive(Clone, Debug, PartialEq, Eq)]
pub struct Cells {
    pub entries: Vec<(Address, String)>,
}

/// The cell has an entry.
pub open spec fn holds(entries: Seq<(Address, String)>, at: Address) -> bool {
    exists|i: int| 0 <= i < entries.len() && (#[trigger] entries[i]).0 == at
}

/// The position of the cell's entry.
pub open spec fn place(entries: Seq<(Address, String)>, at: Address) -> int {
    choose|i: int| 0 <= i < entries.len() && (#[trigger] entries[i]).0 == at
}

/// New text by source cell.
pub type Edits = Cells;

impl View for Cells {
    type V = Map<Address, Seq<char>>;

    open spec fn view(&self) -> Map<Address, Seq<char>> {
        Map::new(
            |at: Address| holds(self.entries@, at),
            |at: Address| self.entries@[place(self.entries@, at)].1@,
        )
    }
}

impl Cells {
    /// Every cell once, in order.
    pub open spec fn wf(self) -> bool {
        forall|i: int, j: int|
            0 <= i < j < self.entries@.len() ==> before(
                (#[trigger] self.entries@[i]).0,
                (#[trigger] self.entries@[j]).0,
            )
    }

    /// An entry is what the map holds of its cell.
    pub proof fn entry_is_held(self, i: int)
        requires
            self.wf(),
            0 <= i < self.entries@.len(),
        ensures
            self@.contains_key(self.entries@[i].0),
            self@[self.entries@[i].0] == self.entries@[i].1@,
    {
        let at = self.entries@[i].0;
        assert(holds(self.entries@, at));
        let k = place(self.entries@, at);
        assert(self.entries@[k].0 == at);
        if k < i {
            assert(before(self.entries@[k].0, self.entries@[i].0));
        } else if i < k {
            assert(before(self.entries@[i].0, self.entries@[k].0));
        }
    }

    /// No entries.
    pub fn new() -> (r: Self)
        ensures
            r.wf(),
            r@ == Map::<Address, Seq<char>>::empty(),
    {
        let r = Self { entries: Vec::new() };
        assert(r@ =~= Map::<Address, Seq<char>>::empty());
        r
    }

    /// How many cells have an entry.
    pub fn len(&self) -> (r: usize)
        requires
            self.wf(),
        ensures
            r == self@.dom().len(),
            self@.dom().finite(),
    {
        proof {
            self.one_entry_per_cell();
        }
        self.entries.len()
    }

    /// There are as many cells as entries.
    pub proof fn one_entry_per_cell(self)
        requires
            self.wf(),
        ensures
            self@.dom().finite(),
            self@.dom().len() == self.entries@.len(),
    {
        let keys = self.entries@.map_values(|e: (Address, String)| e.0);
        assert(keys.no_duplicates()) by {
            assert forall|i: int, j: int|
                0 <= i < keys.len() && 0 <= j < keys.len() && i != j implies keys[i] != keys[j] by {
                if i < j {
                    assert(before(self.entries@[i].0, self.entries@[j].0));
                } else {
                    assert(before(self.entries@[j].0, self.entries@[i].0));
                }
            }
        }
        keys.unique_seq_to_set();
        assert(keys.to_set() =~= self@.dom()) by {
            assert forall|at: Address| keys.to_set().contains(at) <==> self@.dom().contains(at) by {
                if keys.contains(at) {
                    let i = choose|i: int| 0 <= i < keys.len() && keys[i] == at;
                    assert(self.entries@[i].0 == at);
                }
                if holds(self.entries@, at) {
                    let i = place(self.entries@, at);
                    assert(keys[i] == at);
                }
            }
        }
    }

    /// The position of the first entry at or after a cell.
    pub fn seek(&self, at: Address) -> (r: usize)
        requires
            self.wf(),
        ensures
            r <= self.entries@.len(),
            forall|i: int| 0 <= i < r ==> before((#[trigger] self.entries@[i]).0, at),
            forall|i: int|
                r <= i < self.entries@.len() ==> !before((#[trigger] self.entries@[i]).0, at),
    {
        let mut low: usize = 0;
        let mut high: usize = self.entries.len();
        while low < high
            invariant
                self.wf(),
                low <= high <= self.entries@.len(),
                forall|i: int| 0 <= i < low ==> before((#[trigger] self.entries@[i]).0, at),
                forall|i: int|
                    high <= i < self.entries@.len() ==> !before(
                        (#[trigger] self.entries@[i]).0,
                        at,
                    ),
            decreases high - low,
        {
            let middle: usize = low + (high - low) / 2;
            if comes_before(self.entries[middle].0, at) {
                low = middle + 1;
            } else {
                high = middle;
            }
        }
        low
    }

    /// The text of a cell, where it has one.
    pub fn get(&self, at: Address) -> (r: Option<&String>)
        requires
            self.wf(),
        ensures
            match r {
                Some(text) => self@.contains_key(at) && self@[at] == text@,
                None => !self@.contains_key(at),
            },
    {
        let i = self.seek(at);
        if i < self.entries.len() && self.entries[i].0.0 == at.0 && self.entries[i].0.1 == at.1 {
            proof {
                self.entry_is_held(i as int);
            }
            Some(&self.entries[i].1)
        } else {
            proof {
                if holds(self.entries@, at) {
                    let k = place(self.entries@, at);
                    assert(self.entries@[k].0 == at);
                    if k >= i {
                        assert(k > i);
                        assert(before(self.entries@[i as int].0, self.entries@[k].0));
                        assert(!before(self.entries@[i as int].0, at));
                    }
                }
            }
            None
        }
    }

    /// Give a cell this text.
    pub fn insert(&mut self, at: Address, value: String)
        requires
            old(self).wf(),
        ensures
            final(self).wf(),
            final(self)@ == old(self)@.insert(at, value@),
    {
        let i = self.seek(at);
        let ghost was = *self;
        let ghost text = value@;
        if i < self.entries.len() && self.entries[i].0.0 == at.0 && self.entries[i].0.1 == at.1 {
            self.entries.remove(i);
            proof {
                assert(self.entries@ =~= was.entries@.remove(i as int));
            }
        }
        let ghost between = *self;
        self.entries.insert(i, (at, value));
        proof {
            assert(self.entries@ =~= between.entries@.insert(i as int, (at, value)));
            assert(self.entries@[i as int] == (at, value));
            assert forall|k: int, l: int| 0 <= k < l < self.entries@.len() implies before(
                (#[trigger] self.entries@[k]).0,
                (#[trigger] self.entries@[l]).0,
            ) by {
                let gone = was.entries@.len() - between.entries@.len();
                let k0 = if k < i {
                    k
                } else {
                    k - 1 + gone
                };
                let l0 = if l < i {
                    l
                } else {
                    l - 1 + gone
                };
                if k != i {
                    assert(self.entries@[k] == was.entries@[k0]);
                }
                if l != i {
                    assert(self.entries@[l] == was.entries@[l0]);
                }
                if k == i && gone == 1 {
                    assert(before(was.entries@[i as int].0, was.entries@[l0].0));
                } else if k == i {
                    if !before(at, was.entries@[l0].0) {
                        assert(was.entries@[l0].0 == at);
                        assert(l0 == i || before(was.entries@[i as int].0, was.entries@[l0].0));
                    }
                }
            }
            assert(self@ =~= was@.insert(at, text)) by {
                assert forall|b: Address| self@.contains_key(b) <==> was@.insert(
                    at,
                    text,
                ).contains_key(b) by {
                    if holds(was.entries@, b) && b != at {
                        let k = place(was.entries@, b);
                        assert(was.entries@[k].0 == b);
                        if k < i {
                            assert(self.entries@[k].0 == b);
                        } else {
                            let gone = was.entries@.len() - between.entries@.len();
                            assert(self.entries@[k + 1 - gone].0 == b);
                        }
                    }
                    if holds(self.entries@, b) && b != at {
                        let k = place(self.entries@, b);
                        assert(self.entries@[k].0 == b);
                        if k < i {
                            assert(was.entries@[k].0 == b);
                        } else {
                            let gone = was.entries@.len() - between.entries@.len();
                            assert(was.entries@[k - 1 + gone].0 == b);
                        }
                    }
                    if b == at {
                        assert(self.entries@[i as int].0 == b);
                    }
                }
                assert forall|b: Address| self@.contains_key(b) implies self@[b] == was@.insert(
                    at,
                    text,
                )[b] by {
                    let k = place(self.entries@, b);
                    assert(self.entries@[k].0 == b);
                    self.entry_is_held(k);
                    if b == at {
                        self.entry_is_held(i as int);
                    } else {
                        let gone = was.entries@.len() - between.entries@.len();
                        let k0 = if k < i {
                            k
                        } else {
                            k - 1 + gone
                        };
                        assert(was.entries@[k0] == self.entries@[k]);
                        was.entry_is_held(k0);
                    }
                }
            }
        }
    }

    /// Take the text of a cell away.
    pub fn remove(&mut self, at: Address)
        requires
            old(self).wf(),
        ensures
            final(self).wf(),
            final(self)@ == old(self)@.remove(at),
    {
        let i = self.seek(at);
        let ghost was = *self;
        if i < self.entries.len() && self.entries[i].0.0 == at.0 && self.entries[i].0.1 == at.1 {
            self.entries.remove(i);
            proof {
                assert(self.entries@ =~= was.entries@.remove(i as int));
                assert forall|k: int, l: int| 0 <= k < l < self.entries@.len() implies before(
                    (#[trigger] self.entries@[k]).0,
                    (#[trigger] self.entries@[l]).0,
                ) by {
                    let k0 = if k < i {
                        k
                    } else {
                        k + 1
                    };
                    let l0 = if l < i {
                        l
                    } else {
                        l + 1
                    };
                    assert(self.entries@[k] == was.entries@[k0]);
                    assert(self.entries@[l] == was.entries@[l0]);
                }
                assert(self@ =~= was@.remove(at)) by {
                    assert forall|b: Address| self@.contains_key(b) <==> was@.remove(
                        at,
                    ).contains_key(b) by {
                        if holds(was.entries@, b) && b != at {
                            let k = place(was.entries@, b);
                            assert(was.entries@[k].0 == b);
                            if k < i {
                                assert(self.entries@[k].0 == b);
                            } else {
                                assert(self.entries@[k - 1].0 == b);
                            }
                        }
                        if holds(self.entries@, b) {
                            let k = place(self.entries@, b);
                            assert(self.entries@[k].0 == b);
                            let k0 = if k < i {
                                k
                            } else {
                                k + 1
                            };
                            assert(was.entries@[k0].0 == b);
                            if k0 < i {
                                assert(before(was.entries@[k0].0, was.entries@[i as int].0));
                            } else {
                                assert(before(was.entries@[i as int].0, was.entries@[k0].0));
                            }
                        }
                    }
                    assert forall|b: Address| self@.contains_key(b) implies self@[b] == was@.remove(
                        at,
                    )[b] by {
                        let k = place(self.entries@, b);
                        assert(self.entries@[k].0 == b);
                        self.entry_is_held(k);
                        let k0 = if k < i {
                            k
                        } else {
                            k + 1
                        };
                        assert(was.entries@[k0] == self.entries@[k]);
                        was.entry_is_held(k0);
                    }
                }
            }
        } else {
            proof {
                if holds(self.entries@, at) {
                    let k = place(self.entries@, at);
                    assert(self.entries@[k].0 == at);
                    if k >= i {
                        assert(before(self.entries@[i as int].0, self.entries@[k].0));
                        assert(!before(self.entries@[i as int].0, at));
                    }
                }
                assert(self@ =~= was@.remove(at));
            }
        }
    }
}

} // verus!
