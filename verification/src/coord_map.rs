//! A finite map from hex coordinates to adjacency counts, backed by a
//! vector of entries with pairwise distinct keys.
//!
//! The view of a `CoordMap` is the mathematical `Map` from coordinate pairs
//! to counts; every operation is specified against that view.

use vstd::prelude::*;

use crate::coord::HexCoordinate;

verus! {

/// Does the entry sequence hold a key whose view is `p`?
pub open spec fn key_in_seq(s: Seq<(HexCoordinate, u8)>, p: (int, int)) -> bool {
    exists|i: int| 0 <= i < s.len() && (#[trigger] s[i]).0@ == p
}

/// No two entries of the sequence share a key.
pub open spec fn keys_distinct(s: Seq<(HexCoordinate, u8)>) -> bool {
    forall|i: int, j: int| 0 <= i < j < s.len() ==> (#[trigger] s[i]).0@ != (#[trigger] s[j]).0@
}

/// The mathematical map held by an entry sequence (later entries win).
pub open spec fn map_of(s: Seq<(HexCoordinate, u8)>) -> Map<(int, int), u8>
    decreases s.len(),
{
    if s.len() == 0 {
        Map::<(int, int), u8>::empty()
    } else {
        map_of(s.drop_last()).insert(s.last().0@, s.last().1)
    }
}

/// The domain of `map_of(s)` is exactly the set of keys of `s`, and under
/// distinct keys each entry's value is the map's value at its key.
pub proof fn lemma_map_of(s: Seq<(HexCoordinate, u8)>)
    ensures
        forall|p: (int, int)| #[trigger] map_of(s).dom().contains(p) <==> key_in_seq(s, p),
        keys_distinct(s) ==> forall|i: int|
            0 <= i < s.len() ==> map_of(s)[(#[trigger] s[i]).0@] == s[i].1,
    decreases s.len(),
{
    if s.len() == 0 {
    } else {
        let s0 = s.drop_last();
        lemma_map_of(s0);
        assert forall|p: (int, int)| #[trigger] map_of(s).dom().contains(p) implies key_in_seq(
            s,
            p,
        ) by {
            if p == s.last().0@ {
                assert(s[s.len() - 1].0@ == p);
            } else {
                assert(map_of(s0).dom().contains(p));
                assert(key_in_seq(s0, p));
                let i = choose|i: int| 0 <= i < s0.len() && (#[trigger] s0[i]).0@ == p;
                assert(s[i].0@ == p);
            }
        }
        assert forall|p: (int, int)| key_in_seq(s, p) implies #[trigger] map_of(s).dom().contains(
            p,
        ) by {
            let i = choose|i: int| 0 <= i < s.len() && (#[trigger] s[i]).0@ == p;
            if i < s.len() - 1 {
                assert(s0[i].0@ == p);
                assert(key_in_seq(s0, p));
                assert(map_of(s0).dom().contains(p));
            }
        }
        if keys_distinct(s) {
            assert(keys_distinct(s0));
            assert forall|i: int| 0 <= i < s.len() implies map_of(s)[(#[trigger] s[i]).0@]
                == s[i].1 by {
                if i < s.len() - 1 {
                    assert(s0[i].0@ == s[i].0@ && s0[i].1 == s[i].1);
                    assert(s[i].0@ != s.last().0@);
                }
            }
        }
    }
}

/// A map from cells to their adjacent-mine counts.
pub struct CoordMap {
    entries: Vec<(HexCoordinate, u8)>,
}

impl View for CoordMap {
    type V = Map<(int, int), u8>;

    closed spec fn view(&self) -> Map<(int, int), u8> {
        map_of(self.entries@)
    }
}

impl CoordMap {
    /// The backing vector holds no key twice.
    pub closed spec fn wf(self) -> bool {
        keys_distinct(self.entries@)
    }

    /// The empty map.
    pub fn new() -> (m: CoordMap)
        ensures
            m.wf(),
            m@ == Map::<(int, int), u8>::empty(),
    {
        CoordMap { entries: Vec::new() }
    }

    /// Looks a key up.
    pub fn get(&self, c: HexCoordinate) -> (found: Option<u8>)
        requires
            self.wf(),
        ensures
            match found {
                Some(v) => self@.dom().contains(c@) && self@[c@] == v,
                None => !self@.dom().contains(c@),
            },
    {
        proof {
            lemma_map_of(self.entries@);
        }
        let n = self.entries.len();
        let mut i: usize = 0;
        while i < n
            invariant
                0 <= i <= n,
                n == self.entries@.len(),
                keys_distinct(self.entries@),
                forall|p: (int, int)| #[trigger]
                    map_of(self.entries@).dom().contains(p) <==> key_in_seq(self.entries@, p),
                forall|j: int|
                    0 <= j < self.entries@.len() ==> map_of(self.entries@)[(#[trigger] self.entries@[j]).0@]
                        == self.entries@[j].1,
                forall|j: int| 0 <= j < i ==> (#[trigger] self.entries@[j]).0@ != c@,
            decreases n - i,
        {
            let entry = self.entries[i];
            if entry.0 == c {
                return Some(entry.1);
            }
            i += 1;
        }
        None
    }

    /// Membership of a key.
    pub fn contains_key(&self, c: HexCoordinate) -> (present: bool)
        requires
            self.wf(),
        ensures
            present == self@.dom().contains(c@),
    {
        self.get(c).is_some()
    }

    /// Adds a binding for a key that is not yet bound.
    pub fn insert(&mut self, c: HexCoordinate, v: u8)
        requires
            old(self).wf(),
            !old(self)@.dom().contains(c@),
        ensures
            final(self).wf(),
            final(self)@ == old(self)@.insert(c@, v),
    {
        let ghost before = self.entries@;
        self.entries.push((c, v));
        proof {
            lemma_map_of(before);
            assert(self.entries@.drop_last() =~= before);
            assert forall|i: int, j: int| 0 <= i < j < self.entries@.len() implies (
            #[trigger] self.entries@[i]).0@ != (#[trigger] self.entries@[j]).0@ by {
                if j == self.entries@.len() - 1 {
                    assert(before[i].0@ != c@) by {
                        if before[i].0@ == c@ {
                            assert(key_in_seq(before, c@));
                        }
                    }
                    assert(self.entries@[i].0@ == before[i].0@);
                }
            }
        }
    }
}

} // verus!
