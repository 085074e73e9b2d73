//! The thin input adapter between the presentation layer and the game state.
//!
//! The host resolves its pointer position to an optional hex coordinate and
//! calls one of the two entry points once per input event: the primary
//! action reveals the hovered cell, the secondary action toggles its flag.
//! A small tracker supports edge-triggered hover updates.  This component
//! holds no board data of its own.

use vstd::prelude::*;

use crate::board::Board;
use crate::coord::HexCoordinate;
use crate::state::{
    reveal_covered_spec, reveal_result_spec, toggle_result_spec, toggle_spec, ActionError,
    GameState, RevealOutcome,
};

verus! {

/// Primary action: reveals the hovered cell, if one is hovered and lies on
/// the board; otherwise nothing happens and nothing is reported.
pub fn on_primary_action(
    state: &mut GameState,
    board: &Board,
    hover: Option<HexCoordinate>,
) -> (outcome: Option<Result<RevealOutcome, ActionError>>)
    requires
        board.wf(),
        old(state).wf(*board),
    ensures
        final(state).wf(*board),
        match hover {
            Some(c) => {
                if board.in_bounds(c@) {
                    &&& outcome == Some(
                        reveal_result_spec(
                            *board,
                            old(state).covered_set(),
                            old(state).flagged_set(),
                            c@,
                        ),
                    )
                    &&& final(state).covered_set() == reveal_covered_spec(
                        *board,
                        old(state).covered_set(),
                        old(state).flagged_set(),
                        c@,
                    )
                    &&& final(state).flagged_set() == old(state).flagged_set()
                } else {
                    outcome is None && *final(state) == *old(state)
                }
            },
            None => outcome is None && *final(state) == *old(state),
        },
{
    match hover {
        Some(c) => {
            if board.contains(c) {
                Some(state.reveal_cell(board, c))
            } else {
                None
            }
        },
        None => None,
    }
}

/// Secondary action: toggles the flag on the hovered cell, if one is
/// hovered and lies on the board; otherwise nothing happens and nothing is
/// reported.
pub fn on_secondary_action(
    state: &mut GameState,
    board: &Board,
    hover: Option<HexCoordinate>,
) -> (outcome: Option<Result<bool, ActionError>>)
    requires
        board.wf(),
        old(state).wf(*board),
    ensures
        final(state).wf(*board),
        match hover {
            Some(c) => {
                if board.in_bounds(c@) {
                    &&& outcome == Some(
                        toggle_result_spec(
                            *board,
                            old(state).covered_set(),
                            old(state).flagged_set(),
                            c@,
                        ),
                    )
                    &&& final(state).covered_set() == old(state).covered_set()
                    &&& final(state).flagged_set() == if old(state).covered_set().contains(c@) {
                        toggle_spec(old(state).flagged_set(), c@)
                    } else {
                        old(state).flagged_set()
                    }
                } else {
                    outcome is None && *final(state) == *old(state)
                }
            },
            None => outcome is None && *final(state) == *old(state),
        },
{
    match hover {
        Some(c) => {
            if board.contains(c) {
                Some(state.toggle_flag(board, c))
            } else {
                None
            }
        },
        None => None,
    }
}

/// Remembers the previously hovered cell, for edge-triggered hover updates:
/// the host redraws its highlight only when `update` reports a change.
pub struct HoverTracker {
    prev: Option<HexCoordinate>,
}

impl HoverTracker {
    /// The hover recorded by the last `update`.
    pub closed spec fn prev_spec(self) -> Option<HexCoordinate> {
        self.prev
    }

    /// Starts with no hovered cell.
    pub fn new() -> (tracker: HoverTracker)
        ensures
            tracker.prev_spec() is None,
    {
        HoverTracker { prev: None }
    }

    /// Records the new hover; returns whether it differs from the last one.
    pub fn update(&mut self, hover: Option<HexCoordinate>) -> (changed: bool)
        ensures
            final(self).prev_spec() == hover,
            changed == (old(self).prev_spec() != hover),
    {
        let changed = match (&self.prev, &hover) {
            (Some(a), Some(b)) => !(a.q == b.q && a.r == b.r),
            (None, None) => false,
            _ => true,
        };
        self.prev = hover;
        changed
    }
}

} // verus!
