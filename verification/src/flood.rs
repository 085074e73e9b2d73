//! The reveal engine: breadth-first flood fill over blank cells.
//!
//! From a blank seed the flood expands across blank cells, includes numbered
//! cells as its boundary without expanding them, and never leaves the board.
//! Its result is specified as `flood_set`: the set of coordinates reachable
//! from the seed along blank cells.  Because the implementation is proved to
//! return exactly that set — a function of the board and the seed alone —
//! re-running the flood from the same seed on an unmodified board yields the
//! same set.

use vstd::prelude::*;

use crate::board::{hex_count, lemma_blank_no_mine_neighbors, lemma_bounded_set_card, Board};
use crate::coord::{iabs, is_adjacent, neighbor_at, HexCoordinate};
use crate::coord_set::{in_seq, CoordSet};
use vstd::set_lib::lemma_len_subset;

verus! {

/// A flood path: consecutive neighbor steps, every cell before the last
/// blank, every cell after the first in bounds.
pub open spec fn flood_path(b: Board, path: Seq<(int, int)>) -> bool {
    &&& path.len() >= 1
    &&& (forall|i: int| 0 <= i < path.len() - 1 ==> b.blank_at(#[trigger] path[i]))
    &&& (forall|i: int| 0 <= i < path.len() - 1 ==> is_adjacent(#[trigger] path[i], path[i + 1]))
    &&& (forall|i: int| 1 <= i < path.len() ==> b.in_bounds(#[trigger] path[i]))
}

/// Is `p` reachable from `seed` along blank cells?
pub open spec fn flood_reaches(b: Board, seed: (int, int), p: (int, int)) -> bool {
    exists|path: Seq<(int, int)>|
        flood_path(b, path) && path.first() == seed && path.last() == p
}

/// The set a flood from `seed` uncovers: a pure function of board and seed.
pub open spec fn flood_set(b: Board, seed: (int, int)) -> Set<(int, int)> {
    Set::new(|p: (int, int)| flood_reaches(b, seed, p))
}

/// Every cell reaches itself, by the one-cell path.
proof fn lemma_reach_self(b: Board, seed: (int, int))
    ensures
        flood_reaches(b, seed, seed),
{
    let path: Seq<(int, int)> = seq![seed];
    assert(flood_path(b, path));
    assert(path.first() == seed && path.last() == seed);
}

/// Extends a flood path by one step, from a blank reached cell to an
/// in-bounds neighbor.
proof fn lemma_reach_step(b: Board, seed: (int, int), x: (int, int), y: (int, int))
    requires
        flood_reaches(b, seed, x),
        b.blank_at(x),
        is_adjacent(x, y),
        b.in_bounds(y),
    ensures
        flood_reaches(b, seed, y),
{
    let path = choose|path: Seq<(int, int)>|
        flood_path(b, path) && path.first() == seed && path.last() == x;
    let longer = path.push(y);
    assert(flood_path(b, longer)) by {
        assert forall|i: int| 0 <= i < longer.len() - 1 implies b.blank_at(
            #[trigger] longer[i],
        ) by {
            if i < path.len() - 1 {
                assert(longer[i] == path[i]);
            } else {
                assert(longer[i] == x);
            }
        }
        assert forall|i: int| 0 <= i < longer.len() - 1 implies is_adjacent(
            #[trigger] longer[i],
            longer[i + 1],
        ) by {
            if i < path.len() - 1 {
                assert(longer[i] == path[i] && longer[i + 1] == path[i + 1]);
            } else {
                assert(longer[i] == x && longer[i + 1] == y);
            }
        }
        assert forall|i: int| 1 <= i < longer.len() implies b.in_bounds(#[trigger] longer[i]) by {
            if i < path.len() {
                assert(longer[i] == path[i]);
                if i < path.len() - 1 {
                    assert(b.blank_at(path[i]));
                }
                if i == path.len() - 1 && i >= 1 {
                    assert(b.in_bounds(path[i]));
                }
            } else {
                assert(longer[i] == y);
            }
        }
    }
    assert(longer.first() == seed && longer.last() == y);
}

/// On a well-formed board a flood from a blank seed stays in bounds and
/// never reaches a mine: every step leaves a blank cell, and blank cells
/// have no mine neighbors.
pub proof fn lemma_flood_in_bounds_no_mines(b: Board, seed: (int, int))
    requires
        b.wf(),
        b.blank_at(seed),
    ensures
        forall|p: (int, int)| #[trigger]
            flood_set(b, seed).contains(p) ==> b.in_bounds(p) && !b.mine_at(p),
{
    assert forall|p: (int, int)| #[trigger] flood_set(b, seed).contains(p) implies b.in_bounds(p)
        && !b.mine_at(p) by {
        let path = choose|path: Seq<(int, int)>|
            flood_path(b, path) && path.first() == seed && path.last() == p;
        if path.len() == 1 {
            assert(p == seed);
        } else {
            let n = path.len() as int;
            assert(b.in_bounds(path[n - 1]));
            assert(b.blank_at(path[n - 2]));
            assert(is_adjacent(path[n - 2], path[n - 1]));
            let k = choose|k: int|
                0 <= k < 6 && path[n - 1] == #[trigger] neighbor_at(path[n - 2], k);
            lemma_blank_no_mine_neighbors(b, path[n - 2]);
        }
    }
}

/// A set that contains the seed and is closed under expanding blank cells
/// to their in-bounds neighbors contains the endpoint of every flood path.
proof fn lemma_path_endpoint_visited(
    b: Board,
    seed: (int, int),
    visited: Set<(int, int)>,
    path: Seq<(int, int)>,
)
    requires
        visited.contains(seed),
        forall|p: (int, int), k: int|
            visited.contains(p) && b.blank_at(p) && 0 <= k < 6 && b.in_bounds(
                #[trigger] neighbor_at(p, k),
            ) ==> visited.contains(neighbor_at(p, k)),
        flood_path(b, path),
        path.first() == seed,
    ensures
        visited.contains(path.last()),
    decreases path.len(),
{
    if path.len() > 1 {
        let shorter = path.drop_last();
        let n = path.len() as int;
        assert(flood_path(b, shorter)) by {
            assert forall|i: int| 0 <= i < shorter.len() - 1 implies b.blank_at(
                #[trigger] shorter[i],
            ) by {
                assert(shorter[i] == path[i]);
            }
            assert forall|i: int| 0 <= i < shorter.len() - 1 implies is_adjacent(
                #[trigger] shorter[i],
                shorter[i + 1],
            ) by {
                assert(shorter[i] == path[i] && shorter[i + 1] == path[i + 1]);
            }
            assert forall|i: int| 1 <= i < shorter.len() implies b.in_bounds(
                #[trigger] shorter[i],
            ) by {
                assert(shorter[i] == path[i]);
            }
        }
        lemma_path_endpoint_visited(b, seed, visited, shorter);
        let x = path[n - 2];
        assert(visited.contains(x));
        assert(b.blank_at(x));
        assert(is_adjacent(x, path[n - 1]));
        let k = choose|k: int| 0 <= k < 6 && path[n - 1] == #[trigger] neighbor_at(x, k);
        assert(b.in_bounds(neighbor_at(x, k)));
    }
}

/// Expands one blank frontier cell: every in-bounds neighbor joins the
/// visited set; the blank ones among the fresh arrivals join `next`.
///
/// `exempt` is the part of the frontier still waiting to be expanded; the
/// closure property is kept for everything outside `exempt` and `next`, and
/// after the call holds for `x` itself as well.
#[verifier::rlimit(50)]
fn expand_cell(
    board: &Board,
    visited: &mut CoordSet,
    next: &mut Vec<HexCoordinate>,
    x: HexCoordinate,
    Ghost(seed): Ghost<(int, int)>,
    Ghost(exempt): Ghost<Seq<HexCoordinate>>,
)
    requires
        board.wf(),
        old(visited).wf(),
        old(visited)@.finite(),
        old(visited)@.len() <= hex_count(board.radius_spec()),
        old(visited)@.contains(seed),
        board.blank_at(x@),
        old(visited)@.contains(x@),
        forall|p: (int, int)| #[trigger]
            old(visited)@.contains(p) ==> flood_reaches(*board, seed, p),
        forall|p: (int, int)| #[trigger]
            old(visited)@.contains(p) ==> board.in_bounds(p) && !board.mine_at(p),
        forall|j: int|
            0 <= j < old(next)@.len() ==> old(visited)@.contains((#[trigger] old(next)@[j])@)
                && board.blank_at(old(next)@[j]@),
        forall|p: (int, int), k: int|
            old(visited)@.contains(p) && board.blank_at(p) && !in_seq(exempt, p) && !in_seq(
                old(next)@,
                p,
            ) && p != x@ && 0 <= k < 6 && board.in_bounds(#[trigger] neighbor_at(p, k))
                ==> old(visited)@.contains(neighbor_at(p, k)),
    ensures
        final(visited).wf(),
        final(visited)@.finite(),
        final(visited)@.len() <= hex_count(board.radius_spec()),
        final(visited)@.contains(seed),
        old(visited)@.subset_of(final(visited)@),
        final(next)@.len() >= old(next)@.len(),
        old(visited)@.len() + final(next)@.len() <= final(visited)@.len() + old(next)@.len(),
        forall|p: (int, int)| #[trigger]
            final(visited)@.contains(p) ==> flood_reaches(*board, seed, p),
        forall|p: (int, int)| #[trigger]
            final(visited)@.contains(p) ==> board.in_bounds(p) && !board.mine_at(p),
        forall|j: int|
            0 <= j < final(next)@.len() ==> final(visited)@.contains((#[trigger] final(next)@[j])@)
                && board.blank_at(final(next)@[j]@),
        forall|p: (int, int), k: int|
            final(visited)@.contains(p) && board.blank_at(p) && !in_seq(exempt, p) && !in_seq(
                final(next)@,
                p,
            ) && 0 <= k < 6 && board.in_bounds(#[trigger] neighbor_at(p, k))
                ==> final(visited)@.contains(neighbor_at(p, k)),
{
    proof {
        assert(iabs(x@.0) <= board.radius_spec());
        assert(iabs(x@.1) <= board.radius_spec());
        lemma_blank_no_mine_neighbors(*board, x@);
    }
    let nbrs = x.neighbors();
    let mut j: usize = 0;
    while j < 6
        invariant
            board.wf(),
            board.blank_at(x@),
            j <= 6,
            nbrs@.len() == 6,
            forall|k: int| 0 <= k < 6 ==> #[trigger] nbrs@[k]@ == neighbor_at(x@, k),
            forall|k: int| 0 <= k < 6 ==> !board.mine_at(#[trigger] neighbor_at(x@, k)),
            visited.wf(),
            visited@.finite(),
            visited@.len() <= hex_count(board.radius_spec()),
            visited@.contains(seed),
            visited@.contains(x@),
            old(visited)@.subset_of(visited@),
            next@.len() >= old(next)@.len(),
            old(visited)@.len() + next@.len() <= visited@.len() + old(next)@.len(),
            forall|p: (int, int)| #[trigger]
                visited@.contains(p) ==> flood_reaches(*board, seed, p),
            forall|p: (int, int)| #[trigger]
                visited@.contains(p) ==> board.in_bounds(p) && !board.mine_at(p),
            forall|jx: int|
                0 <= jx < next@.len() ==> visited@.contains((#[trigger] next@[jx])@)
                    && board.blank_at(next@[jx]@),
            forall|k: int|
                0 <= k < j && board.in_bounds(#[trigger] neighbor_at(x@, k)) ==> visited@.contains(
                    neighbor_at(x@, k),
                ),
            forall|p: (int, int), k: int|
                visited@.contains(p) && board.blank_at(p) && !in_seq(exempt, p) && !in_seq(
                    next@,
                    p,
                ) && p != x@ && 0 <= k < 6 && board.in_bounds(#[trigger] neighbor_at(p, k))
                    ==> visited@.contains(neighbor_at(p, k)),
        decreases 6 - j,
    {
        let nb = nbrs[j];
        if board.contains(nb) && !visited.contains(nb) {
            proof {
                lemma_reach_step(*board, seed, x@, nb@);
            }
            visited.insert(nb);
            proof {
                lemma_bounded_set_card(*board);
                lemma_len_subset(visited@, Set::new(|p: (int, int)| board.in_bounds(p)));
            }
            if !board.is_numbered(nb) {
                let ghost next_before = next@;
                next.push(nb);
                proof {
                    assert(next@[next_before.len() as int]@ == nb@);
                    assert(in_seq(next@, nb@));
                    assert forall|p: (int, int)| in_seq(next_before, p) implies in_seq(
                        next@,
                        p,
                    ) by {
                        let t = choose|t: int|
                            0 <= t < next_before.len() && (#[trigger] next_before[t])@ == p;
                        assert(next@[t]@ == p);
                    }
                }
            }
        }
        j += 1;
    }
}

/// Breadth-first flood fill from a blank seed.
///
/// Returns exactly `flood_set(board, seed@)`; the result therefore depends
/// on the board and the seed alone, and contains no mine and no cell outside
/// the board.
#[verifier::rlimit(50)]
pub fn flood(board: &Board, seed: HexCoordinate) -> (region: CoordSet)
    requires
        board.wf(),
        board.blank_at(seed@),
    ensures
        region.wf(),
        region@ == flood_set(*board, seed@),
        region@.contains(seed@),
        forall|p: (int, int)| #[trigger]
            region@.contains(p) ==> board.in_bounds(p) && !board.mine_at(p),
{
    let mut visited = CoordSet::new();
    visited.insert(seed);
    let mut frontier: Vec<HexCoordinate> = Vec::new();
    frontier.push(seed);
    proof {
        lemma_reach_self(*board, seed@);
        lemma_bounded_set_card(*board);
        lemma_len_subset(visited@, Set::new(|p: (int, int)| board.in_bounds(p)));
        assert(frontier@[0]@ == seed@);
        assert(in_seq(frontier@, seed@));
    }
    while frontier.len() > 0
        invariant
            board.wf(),
            board.blank_at(seed@),
            visited.wf(),
            visited@.contains(seed@),
            visited@.finite(),
            visited@.len() <= hex_count(board.radius_spec()),
            forall|p: (int, int)| #[trigger]
                visited@.contains(p) ==> flood_reaches(*board, seed@, p),
            forall|p: (int, int)| #[trigger]
                visited@.contains(p) ==> board.in_bounds(p) && !board.mine_at(p),
            forall|ix: int|
                0 <= ix < frontier@.len() ==> visited@.contains((#[trigger] frontier@[ix])@)
                    && board.blank_at(frontier@[ix]@),
            forall|p: (int, int), k: int|
                visited@.contains(p) && board.blank_at(p) && !in_seq(frontier@, p) && 0 <= k < 6
                    && board.in_bounds(#[trigger] neighbor_at(p, k)) ==> visited@.contains(
                    neighbor_at(p, k),
                ),
        decreases hex_count(board.radius_spec()) - visited@.len(), frontier@.len(),
    {
        let ghost start_count = visited@.len();
        let mut next: Vec<HexCoordinate> = Vec::new();
        let flen = frontier.len();
        let mut i: usize = 0;
        proof {
            assert forall|p: (int, int)|
                in_seq(frontier@, p) implies in_seq(frontier@.skip(0), p) by {
                let jx = choose|jx: int|
                    0 <= jx < frontier@.len() && (#[trigger] frontier@[jx])@ == p;
                assert(frontier@.skip(0)[jx]@ == p);
            }
        }
        while i < flen
            invariant
                board.wf(),
                board.blank_at(seed@),
                i <= flen,
                flen == frontier@.len(),
                visited.wf(),
                visited@.contains(seed@),
                visited@.finite(),
                visited@.len() <= hex_count(board.radius_spec()),
                start_count + next@.len() <= visited@.len(),
                forall|p: (int, int)| #[trigger]
                    visited@.contains(p) ==> flood_reaches(*board, seed@, p),
                forall|p: (int, int)| #[trigger]
                    visited@.contains(p) ==> board.in_bounds(p) && !board.mine_at(p),
                forall|ix: int|
                    0 <= ix < frontier@.len() ==> visited@.contains((#[trigger] frontier@[ix])@)
                        && board.blank_at(frontier@[ix]@),
                forall|jx: int|
                    0 <= jx < next@.len() ==> visited@.contains((#[trigger] next@[jx])@)
                        && board.blank_at(next@[jx]@),
                forall|p: (int, int), k: int|
                    visited@.contains(p) && board.blank_at(p) && !in_seq(
                        frontier@.skip(i as int),
                        p,
                    ) && !in_seq(next@, p) && 0 <= k < 6 && board.in_bounds(
                        #[trigger] neighbor_at(p, k),
                    ) ==> visited@.contains(neighbor_at(p, k)),
            decreases flen - i,
        {
            let x = frontier[i];
            proof {
                assert forall|p: (int, int)|
                    in_seq(frontier@.skip(i as int), p) implies p == x@ || in_seq(
                    frontier@.skip(i as int + 1),
                    p,
                ) by {
                    let jx = choose|jx: int|
                        0 <= jx < frontier@.skip(i as int).len() && (#[trigger] frontier@.skip(
                            i as int,
                        )[jx])@ == p;
                    if jx > 0 {
                        assert(frontier@.skip(i as int + 1)[jx - 1]@ == p);
                    }
                }
            }
            expand_cell(
                board,
                &mut visited,
                &mut next,
                x,
                Ghost(seed@),
                Ghost(frontier@.skip(i as int + 1)),
            );
            i += 1;
        }
        frontier = next;
        proof {
            if frontier@.len() > 0 {
                assert(visited@.len() > start_count);
            }
        }
    }
    proof {
        assert forall|p: (int, int)| #[trigger] flood_set(*board, seed@).contains(
            p,
        ) implies visited@.contains(p) by {
            let path = choose|path: Seq<(int, int)>|
                flood_path(*board, path) && path.first() == seed@ && path.last() == p;
            lemma_path_endpoint_visited(*board, seed@, visited@, path);
        }
        assert(visited@ =~= flood_set(*board, seed@));
    }
    visited
}

} // verus!
