//! The mutable per-game state: covered and flagged cells.
//!
//! Each cell is in exactly one of three visibility states: covered and
//! unflagged, covered and flagged, or uncovered.  The two player actions —
//! `reveal_cell` and `toggle_flag` — are the only mutations; illegal actions are
//! rejected without any state change.  After every call, flagged cells are a
//! subset of covered cells, and covered cells only shrink under `reveal_cell`.

use vstd::prelude::*;

use crate::board::{hex_count, Board};
use crate::coord::HexCoordinate;
use crate::coord_set::{in_seq, CoordSet};
use crate::flood::{flood, flood_set};

verus! {

/// Why an action was rejected.  Rejections never change the state.
#[derive(Clone, Copy, Debug, PartialEq, Eq)]
pub enum ActionError {
    /// The coordinate lies outside the board.
    OutOfBounds,
    /// The cell is already uncovered.
    CellUncovered,
    /// The cell is flagged; it must be unflagged before a reveal.
    CellFlagged,
}

/// What a successful reveal hit.
#[derive(Clone, Copy, Debug, PartialEq, Eq)]
pub enum RevealOutcome {
    /// A safe cell: numbered or blank.
    Safe,
    /// A mine: the caller should treat the game as lost.
    Mine,
}

/// The flag set after toggling `p`.
pub open spec fn toggle_spec(flagged: Set<(int, int)>, p: (int, int)) -> Set<(int, int)> {
    if flagged.contains(p) {
        flagged.remove(p)
    } else {
        flagged.insert(p)
    }
}

/// The outcome of `toggle_flag`, as a function of the prior state.
pub open spec fn toggle_result_spec(
    b: Board,
    covered: Set<(int, int)>,
    flagged: Set<(int, int)>,
    p: (int, int),
) -> Result<bool, ActionError> {
    if !b.in_bounds(p) {
        Err(ActionError::OutOfBounds)
    } else if !covered.contains(p) {
        Err(ActionError::CellUncovered)
    } else {
        Ok(!flagged.contains(p))
    }
}

/// The outcome of `reveal_cell`, as a function of the prior state.
pub open spec fn reveal_result_spec(
    b: Board,
    covered: Set<(int, int)>,
    flagged: Set<(int, int)>,
    p: (int, int),
) -> Result<RevealOutcome, ActionError> {
    if !b.in_bounds(p) {
        Err(ActionError::OutOfBounds)
    } else if !covered.contains(p) {
        Err(ActionError::CellUncovered)
    } else if flagged.contains(p) {
        Err(ActionError::CellFlagged)
    } else if b.mine_at(p) {
        Ok(RevealOutcome::Mine)
    } else {
        Ok(RevealOutcome::Safe)
    }
}

/// The covered set after `reveal_cell`: unchanged on a rejection, one cell fewer
/// on a mine or a numbered cell, and on a blank cell the whole flood region
/// except its flagged cells.
pub open spec fn reveal_covered_spec(
    b: Board,
    covered: Set<(int, int)>,
    flagged: Set<(int, int)>,
    p: (int, int),
) -> Set<(int, int)> {
    if !b.in_bounds(p) || !covered.contains(p) || flagged.contains(p) {
        covered
    } else if b.mine_at(p) || b.numbered_at(p) {
        covered.remove(p)
    } else {
        covered.difference(flood_set(b, p).difference(flagged))
    }
}

/// Toggling a flag twice returns the flag set to its original value.
pub proof fn lemma_toggle_flag_twice(flagged: Set<(int, int)>, p: (int, int))
    ensures
        toggle_spec(toggle_spec(flagged, p), p) == flagged,
{
    if flagged.contains(p) {
        assert(toggle_spec(toggle_spec(flagged, p), p) =~= flagged);
    } else {
        assert(toggle_spec(toggle_spec(flagged, p), p) =~= flagged);
    }
}

/// The per-game state, mutated only through `reveal_cell` and `toggle_flag`.
pub struct GameState {
    covered: CoordSet,
    flagged: CoordSet,
}

impl GameState {
    /// The set of covered cells.
    pub closed spec fn covered_set(self) -> Set<(int, int)> {
        self.covered@
    }

    /// The set of flagged cells.
    pub closed spec fn flagged_set(self) -> Set<(int, int)> {
        self.flagged@
    }

    /// The containers keep their distinctness invariants.
    pub closed spec fn containers_wf(self) -> bool {
        self.covered.wf() && self.flagged.wf()
    }

    /// Well-formedness: flags sit only on covered cells, and covered cells
    /// lie on the board.
    pub open spec fn wf(self, b: Board) -> bool {
        &&& self.containers_wf()
        &&& self.flagged_set().subset_of(self.covered_set())
        &&& (forall|p: (int, int)| #[trigger] self.covered_set().contains(p) ==> b.in_bounds(p))
    }

    /// Is `p` still covered?
    pub open spec fn covered_at(self, p: (int, int)) -> bool {
        self.covered_set().contains(p)
    }

    /// Is `p` flagged?
    pub open spec fn flagged_at(self, p: (int, int)) -> bool {
        self.flagged_set().contains(p)
    }

    /// A fresh game: every cell covered, nothing flagged.
    pub fn new(board: &Board) -> (state: GameState)
        requires
            board.wf(),
        ensures
            state.wf(*board),
            forall|p: (int, int)| #[trigger] state.covered_at(p) <==> board.in_bounds(p),
            state.flagged_set() == Set::<(int, int)>::empty(),
    {
        let mut covered = CoordSet::new();
        let n = board.cell_count();
        let mut i: usize = 0;
        while i < n
            invariant
                board.wf(),
                n == hex_count(board.radius_spec()),
                covered.wf(),
                i <= n,
                forall|p: (int, int)| #[trigger]
                    covered@.contains(p) <==> in_seq(board.cells_seq().take(i as int), p),
            decreases n - i,
        {
            let c = board.cell_at(i);
            covered.insert(c);
            proof {
                let cells = board.cells_seq();
                assert forall|p: (int, int)| #[trigger]
                    covered@.contains(p) <==> in_seq(cells.take(i + 1 as int), p) by {
                    if covered@.contains(p) {
                        if p == c@ {
                            assert(cells.take(i + 1 as int)[i as int]@ == p);
                        } else {
                            let j = choose|j: int|
                                0 <= j < i && (#[trigger] cells.take(i as int)[j])@ == p;
                            assert(cells.take(i + 1 as int)[j]@ == p);
                        }
                    }
                    if in_seq(cells.take(i + 1 as int), p) {
                        let j = choose|j: int|
                            0 <= j < i + 1 && (#[trigger] cells.take(i + 1 as int)[j])@ == p;
                        if j < i {
                            assert(cells.take(i as int)[j]@ == p);
                        } else {
                            assert(p == c@);
                        }
                    }
                }
            }
            i += 1;
        }
        proof {
            assert(board.cells_seq().take(n as int) =~= board.cells_seq());
        }
        let state = GameState { covered, flagged: CoordSet::new() };
        proof {
            assert forall|p: (int, int)| #[trigger]
                state.covered_at(p) <==> board.in_bounds(p) by {
                assert(covered@.contains(p) <==> in_seq(board.cells_seq(), p));
            }
        }
        state
    }

    /// Is `c` still covered?
    pub fn is_covered(&self, c: HexCoordinate) -> (covered: bool)
        ensures
            covered == self.covered_at(c@),
    {
        self.covered.contains(c)
    }

    /// Is `c` flagged?
    pub fn is_flagged(&self, c: HexCoordinate) -> (flagged: bool)
        ensures
            flagged == self.flagged_at(c@),
    {
        self.flagged.contains(c)
    }

    /// Number of covered cells.
    pub fn covered_count(&self) -> (n: usize)
        requires
            self.containers_wf(),
        ensures
            n == self.covered_set().len(),
    {
        proof {
            self.covered.lemma_card();
        }
        self.covered.len()
    }

    /// Toggles the flag on a covered cell: flags it if unflagged, unflags it
    /// if flagged.  Rejected if the cell is out of bounds or uncovered.  The
    /// covered set never changes.  Returns whether the cell is flagged
    /// afterwards.
    pub fn toggle_flag(&mut self, board: &Board, c: HexCoordinate) -> (outcome: Result<
        bool,
        ActionError,
    >)
        requires
            board.wf(),
            old(self).wf(*board),
        ensures
            final(self).wf(*board),
            outcome == toggle_result_spec(
                *board,
                old(self).covered_set(),
                old(self).flagged_set(),
                c@,
            ),
            final(self).covered_set() == old(self).covered_set(),
            final(self).flagged_set() == if board.in_bounds(c@) && old(self).covered_set().contains(
                c@,
            ) {
                toggle_spec(old(self).flagged_set(), c@)
            } else {
                old(self).flagged_set()
            },
    {
        if !board.contains(c) {
            return Err(ActionError::OutOfBounds);
        }
        if !self.covered.contains(c) {
            return Err(ActionError::CellUncovered);
        }
        if self.flagged.contains(c) {
            self.flagged.remove(c);
            Ok(false)
        } else {
            self.flagged.insert(c);
            Ok(true)
        }
    }

    /// Reveals `c`.  Rejected — with no state change — if `c` is out of
    /// bounds, already uncovered, or flagged.  A mine or a numbered cell
    /// uncovers exactly that one cell; a blank cell uncovers its whole flood
    /// region except the cells flagged at call time.  Flags never change.
    pub fn reveal_cell(&mut self, board: &Board, c: HexCoordinate) -> (outcome: Result<
        RevealOutcome,
        ActionError,
    >)
        requires
            board.wf(),
            old(self).wf(*board),
        ensures
            final(self).wf(*board),
            outcome == reveal_result_spec(
                *board,
                old(self).covered_set(),
                old(self).flagged_set(),
                c@,
            ),
            final(self).covered_set() == reveal_covered_spec(
                *board,
                old(self).covered_set(),
                old(self).flagged_set(),
                c@,
            ),
            final(self).flagged_set() == old(self).flagged_set(),
    {
        if !board.contains(c) {
            return Err(ActionError::OutOfBounds);
        }
        if !self.covered.contains(c) {
            return Err(ActionError::CellUncovered);
        }
        if self.flagged.contains(c) {
            return Err(ActionError::CellFlagged);
        }
        if board.is_mine(c) {
            self.covered.remove(c);
            return Ok(RevealOutcome::Mine);
        }
        if board.is_numbered(c) {
            self.covered.remove(c);
            return Ok(RevealOutcome::Safe);
        }
        let region = flood(board, c);
        let rlen = region.len();
        let mut i: usize = 0;
        while i < rlen
            invariant
                board.wf(),
                region.wf(),
                region@ == flood_set(*board, c@),
                rlen == region.seq().len(),
                i <= rlen,
                self.covered.wf(),
                self.flagged.wf(),
                self.flagged == old(self).flagged,
                self.flagged@.subset_of(self.covered@),
                forall|p: (int, int)| #[trigger] self.covered@.contains(p) ==> board.in_bounds(p),
                forall|p: (int, int)| #[trigger]
                    self.covered@.contains(p) <==> old(self).covered@.contains(p) && !(in_seq(
                        region.seq().take(i as int),
                        p,
                    ) && !self.flagged@.contains(p)),
            decreases rlen - i,
        {
            let cell = region.get(i);
            let ghost before = self.covered@;
            if !self.flagged.contains(cell) {
                self.covered.remove(cell);
            }
            proof {
                let rseq = region.seq();
                assert forall|p: (int, int)| #[trigger]
                    self.covered@.contains(p) <==> old(self).covered@.contains(p) && !(in_seq(
                        rseq.take(i + 1 as int),
                        p,
                    ) && !self.flagged@.contains(p)) by {
                    assert(rseq.take(i + 1 as int)[i as int] == cell);
                    if in_seq(rseq.take(i as int), p) {
                        let j = choose|j: int|
                            0 <= j < i && (#[trigger] rseq.take(i as int)[j])@ == p;
                        assert(rseq.take(i + 1 as int)[j]@ == p);
                    }
                    if in_seq(rseq.take(i + 1 as int), p) && p != cell@ {
                        let j = choose|j: int|
                            0 <= j < i + 1 && (#[trigger] rseq.take(i + 1 as int)[j])@ == p;
                        assert(j < i);
                        assert(rseq.take(i as int)[j]@ == p);
                    }
                }
            }
            i += 1;
        }
        proof {
            region.lemma_view_seq();
            assert(region.seq().take(rlen as int) =~= region.seq());
            assert(self.covered@ =~= old(self).covered@.difference(
                flood_set(*board, c@).difference(self.flagged@),
            ));
        }
        Ok(RevealOutcome::Safe)
    }

    /// Is the game won: is every non-mine cell uncovered?
    pub fn is_won(&self, board: &Board) -> (won: bool)
        requires
            board.wf(),
            self.wf(*board),
        ensures
            won <==> self.covered_set().subset_of(board.mine_set()),
    {
        let n = self.covered.len();
        let mut i: usize = 0;
        while i < n
            invariant
                board.wf(),
                n == self.covered.seq().len(),
                i <= n,
                forall|j: int| 0 <= j < i ==> board.mine_at((#[trigger] self.covered.seq()[j])@),
            decreases n - i,
        {
            let cell = self.covered.get(i);
            if !board.is_mine(cell) {
                proof {
                    assert(self.covered@.contains(cell@));
                }
                return false;
            }
            i += 1;
        }
        proof {
            self.covered.lemma_view_seq();
            assert forall|p: (int, int)| self.covered@.contains(p) implies board.mine_set().contains(
                p,
            ) by {
                let j = choose|j: int|
                    0 <= j < self.covered.seq().len() && (#[trigger] self.covered.seq()[j])@ == p;
            }
        }
        true
    }
}

} // verus!
