//! A finite set of hex coordinates, backed by a duplicate-free vector.
//!
//! The view of a `CoordSet` is the mathematical `Set` of the coordinate
//! pairs it holds; every operation is specified against that view.

use vstd::prelude::*;

use crate::coord::HexCoordinate;

verus! {

/// Does the sequence hold a coordinate whose view is `p`?
pub open spec fn in_seq(s: Seq<HexCoordinate>, p: (int, int)) -> bool {
    exists|i: int| 0 <= i < s.len() && (#[trigger] s[i])@ == p
}

/// No two entries of the sequence view to the same coordinate pair.
pub open spec fn coords_distinct(s: Seq<HexCoordinate>) -> bool {
    forall|i: int, j: int| 0 <= i < j < s.len() ==> (#[trigger] s[i])@ != (#[trigger] s[j])@
}

/// The set of coordinate pairs held by a sequence.
pub open spec fn seq_coords(s: Seq<HexCoordinate>) -> Set<(int, int)> {
    Set::new(|p: (int, int)| in_seq(s, p))
}

/// A duplicate-free collection of hex coordinates with set semantics.
pub struct CoordSet {
    elems: Vec<HexCoordinate>,
}

impl View for CoordSet {
    type V = Set<(int, int)>;

    closed spec fn view(&self) -> Set<(int, int)> {
        seq_coords(self.elems@)
    }
}

impl CoordSet {
    /// The backing vector holds no coordinate twice.
    pub closed spec fn wf(self) -> bool {
        coords_distinct(self.elems@)
    }

    /// The elements in their storage order, for iteration contracts.
    pub closed spec fn seq(self) -> Seq<HexCoordinate> {
        self.elems@
    }

    /// The empty set.
    pub fn new() -> (s: CoordSet)
        ensures
            s.wf(),
            s@ == Set::<(int, int)>::empty(),
            s.seq().len() == 0,
    {
        let s = CoordSet { elems: Vec::new() };
        proof {
            assert(s@ =~= Set::<(int, int)>::empty());
        }
        s
    }

    /// Number of elements.
    pub fn len(&self) -> (n: usize)
        ensures
            n == self.seq().len(),
    {
        self.elems.len()
    }

    /// The `i`-th element in storage order.
    pub fn get(&self, i: usize) -> (c: HexCoordinate)
        requires
            i < self.seq().len(),
        ensures
            c == self.seq()[i as int],
            self@.contains(c@),
    {
        self.elems[i]
    }

    /// Membership test.
    pub fn contains(&self, c: HexCoordinate) -> (present: bool)
        ensures
            present == self@.contains(c@),
    {
        let n = self.elems.len();
        let mut i: usize = 0;
        while i < n
            invariant
                0 <= i <= n,
                n == self.elems@.len(),
                forall|j: int| 0 <= j < i ==> (#[trigger] self.elems@[j])@ != c@,
            decreases n - i,
        {
            if self.elems[i] == c {
                return true;
            }
            i += 1;
        }
        false
    }

    /// Adds `c`; returns whether it was newly added.
    pub fn insert(&mut self, c: HexCoordinate) -> (fresh: bool)
        requires
            old(self).wf(),
        ensures
            final(self).wf(),
            final(self)@ == old(self)@.insert(c@),
            fresh == !old(self)@.contains(c@),
            final(self).seq() == if fresh {
                old(self).seq().push(c)
            } else {
                old(self).seq()
            },
    {
        if self.contains(c) {
            proof {
                assert(self@ =~= self@.insert(c@));
            }
            false
        } else {
            let ghost before = self.elems@;
            self.elems.push(c);
            proof {
                assert forall|p: (int, int)| #[trigger] self@.contains(p) implies (seq_coords(
                    before,
                ).insert(c@)).contains(p) by {
                    let i = choose|i: int|
                        0 <= i < self.elems@.len() && (#[trigger] self.elems@[i])@ == p;
                    if i < before.len() {
                        assert(before[i]@ == p);
                    }
                }
                assert forall|p: (int, int)| #[trigger]
                    (seq_coords(before).insert(c@)).contains(p) implies self@.contains(p) by {
                    if p == c@ {
                        assert(self.elems@[before.len() as int]@ == p);
                    } else {
                        let i = choose|i: int| 0 <= i < before.len() && (#[trigger] before[i])@ == p;
                        assert(self.elems@[i]@ == p);
                    }
                }
                assert(self@ =~= seq_coords(before).insert(c@));
            }
            true
        }
    }

    /// The view is exactly the set of coordinates of the element sequence.
    pub proof fn lemma_view_seq(self)
        ensures
            self@ == seq_coords(self.seq()),
    {
    }

    /// The view is finite and has one element per stored coordinate.
    pub proof fn lemma_card(self)
        requires
            self.wf(),
        ensures
            self@.finite(),
            self@.len() == self.seq().len(),
    {
        lemma_distinct_seq_card(self.elems@);
    }

    /// Removes `c`; returns whether it was present.
    pub fn remove(&mut self, c: HexCoordinate) -> (was_present: bool)
        requires
            old(self).wf(),
        ensures
            final(self).wf(),
            final(self)@ == old(self)@.remove(c@),
            was_present == old(self)@.contains(c@),
    {
        let ghost before = self.elems@;
        let n = self.elems.len();
        let mut i: usize = 0;
        while i < n
            invariant
                0 <= i <= n,
                n == before.len(),
                before == old(self).elems@,
                self.elems@ == before,
                coords_distinct(before),
                forall|j: int| 0 <= j < i ==> (#[trigger] before[j])@ != c@,
            decreases n - i,
        {
            if self.elems[i] == c {
                let ghost idx = i as int;
                self.elems.remove(i);
                proof {
                    let after = self.elems@;
                    before.remove_ensures(idx);
                    assert forall|a: int, b: int| 0 <= a < b < after.len() implies (
                    #[trigger] after[a])@ != (#[trigger] after[b])@ by {
                        let a0: int = if a < idx {
                            a
                        } else {
                            a + 1
                        };
                        let b0: int = if b < idx {
                            b
                        } else {
                            b + 1
                        };
                        assert(after[a] == before[a0]);
                        assert(after[b] == before[b0]);
                    }
                    assert forall|p: (int, int)| #[trigger] in_seq(after, p) implies in_seq(
                        before,
                        p,
                    ) && p != c@ by {
                        let j = choose|j: int| 0 <= j < after.len() && (#[trigger] after[j])@ == p;
                        let j0: int = if j < idx {
                            j
                        } else {
                            j + 1
                        };
                        assert(before[j0]@ == p);
                        assert(before[idx]@ == c@);
                    }
                    assert forall|p: (int, int)| in_seq(before, p) && p != c@ implies #[trigger]
                        in_seq(after, p) by {
                        let j0 = choose|j0: int|
                            0 <= j0 < before.len() && (#[trigger] before[j0])@ == p;
                        assert(before[idx]@ == c@);
                        if j0 < idx {
                            assert(after[j0]@ == p);
                        } else {
                            assert(after[j0 - 1]@ == p);
                        }
                    }
                    assert(seq_coords(after) =~= seq_coords(before).remove(c@));
                    assert(before[idx]@ == c@);
                }
                return true;
            }
            i += 1;
        }
        proof {
            assert(!self@.contains(c@));
            assert(self@ =~= self@.remove(c@));
        }
        false
    }
}

/// A duplicate-free sequence of `n` coordinates covers exactly `n` pairs.
pub proof fn lemma_distinct_seq_card(s: Seq<HexCoordinate>)
    requires
        coords_distinct(s),
    ensures
        seq_coords(s).finite(),
        seq_coords(s).len() == s.len(),
    decreases s.len(),
{
    if s.len() == 0 {
        assert(seq_coords(s) =~= Set::<(int, int)>::empty());
    } else {
        let s0 = s.drop_last();
        assert(coords_distinct(s0));
        lemma_distinct_seq_card(s0);
        let last = s.last()@;
        assert forall|p: (int, int)| #[trigger] seq_coords(s).contains(p) implies seq_coords(
            s0,
        ).insert(last).contains(p) by {
            let i = choose|i: int| 0 <= i < s.len() && (#[trigger] s[i])@ == p;
            if i < s.len() - 1 {
                assert(s0[i]@ == p);
            }
        }
        assert forall|p: (int, int)| #[trigger]
            seq_coords(s0).insert(last).contains(p) implies seq_coords(s).contains(p) by {
            if p == last {
                assert(s[s.len() - 1]@ == p);
            } else {
                let i = choose|i: int| 0 <= i < s0.len() && (#[trigger] s0[i])@ == p;
                assert(s[i]@ == p);
            }
        }
        assert(seq_coords(s) =~= seq_coords(s0).insert(last));
        assert(!seq_coords(s0).contains(last)) by {
            if seq_coords(s0).contains(last) {
                let i = choose|i: int| 0 <= i < s0.len() && (#[trigger] s0[i])@ == last;
                assert(s[i]@ == s[s.len() - 1]@);
            }
        }
    }
}

} // verus!
