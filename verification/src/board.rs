//! The static board of one game: cells, mines, and adjacency numbers.
//!
//! A board of radius `R` holds every coordinate whose cube length is at most
//! `R` — exactly `3*R*(R+1) + 1` cells.  Mines are a subset of the cells;
//! `numbers` maps every non-mine cell with at least one adjacent mine to its
//! count of adjacent mines (always in `1..=6`).  Cells in neither set are
//! blank, the only cells across which a reveal flood-fills.

use vstd::prelude::*;

use crate::coord::{cube_len, iabs, neighbor_at, HexCoordinate};
use crate::coord_map::CoordMap;
use crate::coord_set::{coords_distinct, in_seq, lemma_distinct_seq_card, seq_coords, CoordSet};

verus! {

/// Number of cells of a hexagonal board of the given radius.
pub open spec fn hex_count(radius: int) -> int {
    3 * radius * (radius + 1) + 1
}

/// Number of cells in column `q` of a board of the given radius.
spec fn column_len(radius: int, q: int) -> int {
    2 * radius + 1 - iabs(q)
}

/// Total size of columns `-radius ..= q`.
spec fn column_prefix(radius: int, q: int) -> int
    decreases radius + q + 1 when q + radius + 1 >= 0
{
    if q < -radius {
        0
    } else {
        column_prefix(radius, q - 1) + column_len(radius, q)
    }
}

proof fn lemma_column_prefix_neg(radius: int, q: int)
    requires
        radius >= 0,
        -radius - 1 <= q <= 0,
    ensures
        2 * column_prefix(radius, q) == (q + radius + 1) * (3 * radius + q + 2),
    decreases radius + q + 1,
{
    if q == -radius - 1 {
        assert((q + radius + 1) * (3 * radius + q + 2) == 0) by (nonlinear_arith)
            requires q + radius + 1 == 0;
    } else {
        lemma_column_prefix_neg(radius, q - 1);
        assert(column_len(radius, q) == 2 * radius + 1 + q);
        assert((q + radius) * (3 * radius + q + 1) + 2 * (2 * radius + 1 + q) == (q + radius + 1)
            * (3 * radius + q + 2)) by (nonlinear_arith);
    }
}

proof fn lemma_column_prefix_pos(radius: int, q: int)
    requires
        radius >= 0,
        0 <= q <= radius,
    ensures
        2 * column_prefix(radius, q) == (radius + 1) * (3 * radius + 2) + q * (4 * radius + 2) - q
            * q - q,
    decreases q,
{
    if q == 0 {
        lemma_column_prefix_neg(radius, 0);
        assert(q * (4 * radius + 2) - q * q - q == 0) by (nonlinear_arith)
            requires q == 0;
    } else {
        lemma_column_prefix_pos(radius, q - 1);
        assert(column_len(radius, q) == 2 * radius + 1 - q);
        assert((radius + 1) * (3 * radius + 2) + (q - 1) * (4 * radius + 2) - (q - 1) * (q - 1) - (
        q - 1) + 2 * (2 * radius + 1 - q) == (radius + 1) * (3 * radius + 2) + q * (4 * radius + 2)
            - q * q - q) by (nonlinear_arith);
    }
}

proof fn lemma_column_prefix_total(radius: int)
    requires
        radius >= 0,
    ensures
        column_prefix(radius, radius) == hex_count(radius),
{
    lemma_column_prefix_pos(radius, radius);
    assert(2 * ((radius + 1) * (3 * radius + 2) + radius * (4 * radius + 2) - radius * radius
        - radius) == 4 * (3 * radius * (radius + 1) + 1)) by (nonlinear_arith);
}

/// Number of mines among the first `k` of the six neighbors of `p`.
pub open spec fn adj_mines_upto(mines: Set<(int, int)>, p: (int, int), k: int) -> int
    decreases k when k >= 0
{
    if k <= 0 {
        0
    } else {
        adj_mines_upto(mines, p, k - 1) + if mines.contains(neighbor_at(p, k - 1)) {
            1int
        } else {
            0int
        }
    }
}

/// Number of mines among the six neighbors of `p`.
pub open spec fn adjacent_mines(mines: Set<(int, int)>, p: (int, int)) -> int {
    adj_mines_upto(mines, p, 6)
}

/// The partial neighbor counts stay between `0` and `k`.
pub proof fn lemma_adj_mines_bounds(mines: Set<(int, int)>, p: (int, int), k: int)
    requires
        k >= 0,
    ensures
        0 <= adj_mines_upto(mines, p, k) <= k,
    decreases k,
{
    if k > 0 {
        lemma_adj_mines_bounds(mines, p, k - 1);
    }
}

/// A cell with adjacent-mine count zero has no mine among its neighbors.
pub proof fn lemma_adj_mines_zero(mines: Set<(int, int)>, p: (int, int), k: int)
    requires
        k >= 0,
        adj_mines_upto(mines, p, k) == 0,
    ensures
        forall|i: int| 0 <= i < k ==> !mines.contains(#[trigger] neighbor_at(p, i)),
    decreases k,
{
    if k > 0 {
        lemma_adj_mines_bounds(mines, p, k - 1);
        lemma_adj_mines_zero(mines, p, k - 1);
    }
}

/// The cells at positions `0, k, 2k, ...` of an enumeration, in order.
pub open spec fn every_kth_seq(s: Seq<HexCoordinate>, k: int) -> Seq<HexCoordinate>
    decreases s.len() when k >= 1
{
    if s.len() == 0 {
        Seq::<HexCoordinate>::empty()
    } else if s.len() <= k {
        seq![s[0]]
    } else {
        seq![s[0]] + every_kth_seq(s.skip(k), k)
    }
}

/// The static board: never mutated once generated.
pub struct Board {
    radius: u32,
    cells: Vec<HexCoordinate>,
    mines: CoordSet,
    numbers: CoordMap,
}

impl Board {
    /// The board radius as a mathematical integer.
    pub closed spec fn radius_spec(self) -> int {
        self.radius as int
    }

    /// The cells in enumeration order.
    pub closed spec fn cells_seq(self) -> Seq<HexCoordinate> {
        self.cells@
    }

    /// The set of mines.
    pub closed spec fn mine_set(self) -> Set<(int, int)> {
        self.mines@
    }

    /// The map from numbered cells to their adjacent-mine counts.
    pub closed spec fn number_map(self) -> Map<(int, int), u8> {
        self.numbers@
    }

    /// Is `p` a cell of the board?
    pub open spec fn in_bounds(self, p: (int, int)) -> bool {
        cube_len(p) <= self.radius_spec()
    }

    /// Is `p` a mine?
    pub open spec fn mine_at(self, p: (int, int)) -> bool {
        self.mine_set().contains(p)
    }

    /// Is `p` a numbered cell?
    pub open spec fn numbered_at(self, p: (int, int)) -> bool {
        self.number_map().dom().contains(p)
    }

    /// Adjacent-mine count of `p`.
    pub open spec fn count_at(self, p: (int, int)) -> int {
        adjacent_mines(self.mine_set(), p)
    }

    /// Is `p` a blank cell: in bounds, no mine, no adjacent mine?
    pub open spec fn blank_at(self, p: (int, int)) -> bool {
        self.in_bounds(p) && !self.mine_at(p) && !self.numbered_at(p)
    }

    /// The containers keep their distinctness invariants.
    pub closed spec fn containers_wf(self) -> bool {
        coords_distinct(self.cells@) && self.mines.wf() && self.numbers.wf()
    }

    /// Well-formedness: the cells enumerate the in-bounds coordinates, the
    /// mines are cells, and `numbers` holds exactly the non-mine cells with a
    /// positive adjacent-mine count, each bound to that count.
    pub open spec fn wf(self) -> bool {
        &&& self.containers_wf()
        &&& 0 <= self.radius_spec() < 0x4000_0000
        &&& self.cells_seq().len() == hex_count(self.radius_spec())
        &&& (forall|p: (int, int)| #[trigger] in_seq(self.cells_seq(), p) <==> self.in_bounds(p))
        &&& (forall|p: (int, int)| #[trigger] self.mine_at(p) ==> self.in_bounds(p))
        &&& (forall|p: (int, int)| #[trigger]
            self.numbered_at(p) <==> self.in_bounds(p) && !self.mine_at(p) && self.count_at(p)
                >= 1)
        &&& (forall|p: (int, int)|
            self.numbered_at(p) ==> #[trigger] self.number_map()[p] as int == self.count_at(p))
    }

    /// The board radius.
    pub fn radius(&self) -> (r: u32)
        ensures
            r as int == self.radius_spec(),
    {
        self.radius
    }

    /// In-bounds test: cube length at most the radius.
    pub fn contains(&self, c: HexCoordinate) -> (inside: bool)
        ensures
            inside == self.in_bounds(c@),
    {
        c.cube_length() <= self.radius as u64
    }

    /// Is `c` a mine?
    pub fn is_mine(&self, c: HexCoordinate) -> (mine: bool)
        ensures
            mine == self.mine_at(c@),
    {
        self.mines.contains(c)
    }

    /// The adjacency number of `c`, if `c` is a numbered cell.
    pub fn number_at(&self, c: HexCoordinate) -> (number: Option<u8>)
        requires
            self.wf(),
        ensures
            match number {
                Some(v) => self.numbered_at(c@) && self.number_map()[c@] == v,
                None => !self.numbered_at(c@),
            },
    {
        self.numbers.get(c)
    }

    /// Is `c` a numbered cell?
    pub fn is_numbered(&self, c: HexCoordinate) -> (numbered: bool)
        requires
            self.wf(),
        ensures
            numbered == self.numbered_at(c@),
    {
        self.numbers.contains_key(c)
    }

    /// Is `c` a blank cell?
    pub fn is_blank(&self, c: HexCoordinate) -> (blank: bool)
        requires
            self.wf(),
        ensures
            blank == self.blank_at(c@),
    {
        self.contains(c) && !self.is_mine(c) && !self.is_numbered(c)
    }

    /// Number of cells: `3*R*(R+1) + 1` for radius `R`.
    pub fn cell_count(&self) -> (n: usize)
        requires
            self.wf(),
        ensures
            n == hex_count(self.radius_spec()),
    {
        self.cells.len()
    }

    /// The `i`-th cell in enumeration order.
    pub fn cell_at(&self, i: usize) -> (c: HexCoordinate)
        requires
            self.wf(),
            i < hex_count(self.radius_spec()),
        ensures
            c == self.cells_seq()[i as int],
            self.in_bounds(c@),
    {
        let c = self.cells[i];
        proof {
            assert(in_seq(self.cells_seq(), c@)) by {
                assert(self.cells_seq()[i as int]@ == c@);
            }
        }
        c
    }
}

/// Mines are never numbered, and every adjacency number lies in `1..=6`.
pub proof fn lemma_numbers_invariant(b: Board)
    requires
        b.wf(),
    ensures
        forall|p: (int, int)| #[trigger] b.numbered_at(p) ==> !b.mine_at(p),
        forall|p: (int, int)| #[trigger] b.numbered_at(p) ==> 1 <= b.number_map()[p] <= 6,
{
    assert forall|p: (int, int)| #[trigger] b.numbered_at(p) implies 1 <= b.number_map()[p]
        <= 6 by {
        lemma_adj_mines_bounds(b.mine_set(), p, 6);
    }
}

/// On a well-formed board a blank cell has no mine among its neighbors.
pub proof fn lemma_blank_no_mine_neighbors(b: Board, p: (int, int))
    requires
        b.wf(),
        b.blank_at(p),
    ensures
        forall|i: int| 0 <= i < 6 ==> !b.mine_at(#[trigger] neighbor_at(p, i)),
{
    assert(b.count_at(p) == 0) by {
        lemma_adj_mines_bounds(b.mine_set(), p, 6);
    }
    lemma_adj_mines_zero(b.mine_set(), p, 6);
}

/// The set of in-bounds coordinates of a well-formed board is finite, with
/// exactly `hex_count` elements.
pub proof fn lemma_bounded_set_card(b: Board)
    requires
        b.wf(),
    ensures
        Set::new(|p: (int, int)| b.in_bounds(p)).finite(),
        Set::new(|p: (int, int)| b.in_bounds(p)).len() == hex_count(b.radius_spec()),
{
    lemma_distinct_seq_card(b.cells_seq());
    assert(Set::new(|p: (int, int)| b.in_bounds(p)) =~= seq_coords(b.cells_seq()));
}

/// Enumerates every coordinate with cube length at most `radius`, column by
/// column, without duplicates.
fn enumerate_cells(radius: u32) -> (cells: Vec<HexCoordinate>)
    requires
        radius < 0x4000_0000,
    ensures
        coords_distinct(cells@),
        cells@.len() == hex_count(radius as int),
        forall|p: (int, int)| #[trigger] in_seq(cells@, p) <==> cube_len(p) <= radius as int,
{
    let rad: i64 = radius as i64;
    let mut cells: Vec<HexCoordinate> = Vec::new();
    let mut q: i64 = -rad;
    while q <= rad
        invariant
            rad == radius as int,
            0 <= rad < 0x4000_0000,
            -rad <= q <= rad + 1,
            cells@.len() == column_prefix(rad as int, q - 1),
            coords_distinct(cells@),
            forall|i: int| 0 <= i < cells@.len() ==> (#[trigger] cells@[i])@.0 < q,
            forall|p: (int, int)| #[trigger]
                in_seq(cells@, p) <==> cube_len(p) <= rad as int && p.0 < q,
        decreases rad + 1 - q,
    {
        let r_lo: i64 = if -rad - q < -rad {
            -rad
        } else {
            -rad - q
        };
        let r_hi: i64 = if rad - q > rad {
            rad
        } else {
            rad - q
        };
        assert(r_hi - r_lo + 1 == column_len(rad as int, q as int));
        let mut r: i64 = r_lo;
        while r <= r_hi
            invariant
                rad == radius as int,
                0 <= rad < 0x4000_0000,
                -rad <= q <= rad,
                r_lo as int == if q >= 0 {
                    -(rad as int)
                } else {
                    -(rad as int) - q as int
                },
                r_hi as int == if q >= 0 {
                    rad as int - q as int
                } else {
                    rad as int
                },
                r_lo <= r <= r_hi + 1,
                cells@.len() == column_prefix(rad as int, q - 1) + (r - r_lo),
                coords_distinct(cells@),
                forall|i: int|
                    0 <= i < cells@.len() ==> (#[trigger] cells@[i])@.0 < q || ((
                    #[trigger] cells@[i])@.0 == q && cells@[i]@.1 < r),
                forall|p: (int, int)| #[trigger]
                    in_seq(cells@, p) <==> cube_len(p) <= rad as int && (p.0 < q || (p.0 == q && p.1
                        < r)),
            decreases r_hi + 1 - r,
        {
            let ghost before = cells@;
            let c = HexCoordinate { q: q as i32, r: r as i32 };
            assert(c@ == (q as int, r as int));
            assert(cube_len(c@) <= rad as int);
            cells.push(c);
            proof {
                assert forall|p: (int, int)| #[trigger] in_seq(cells@, p) implies cube_len(p)
                    <= rad as int && (p.0 < q || (p.0 == q && p.1 < r + 1)) by {
                    let i = choose|i: int| 0 <= i < cells@.len() && (#[trigger] cells@[i])@ == p;
                    if i < before.len() {
                        assert(before[i]@ == p);
                        assert(in_seq(before, p));
                    }
                }
                assert forall|p: (int, int)|
                    cube_len(p) <= rad as int && (p.0 < q || (p.0 == q && p.1 < r
                        + 1)) implies #[trigger] in_seq(cells@, p) by {
                    if p.0 < q || (p.0 == q && p.1 < r) {
                        assert(in_seq(before, p));
                        let i = choose|i: int| 0 <= i < before.len() && (#[trigger] before[i])@ == p;
                        assert(cells@[i]@ == p);
                    } else {
                        assert(p == c@);
                        assert(cells@[before.len() as int]@ == p);
                    }
                }
            }
            r += 1;
        }
        proof {
            assert forall|p: (int, int)| #[trigger]
                in_seq(cells@, p) <==> cube_len(p) <= rad as int && p.0 < q + 1 by {
                if cube_len(p) <= rad as int && p.0 == q {
                    // every in-bounds cell of column q lies in r_lo ..= r_hi
                    assert(iabs(p.1) <= rad as int);
                    assert(iabs(p.0 + p.1) <= rad as int);
                }
            }
            assert(cells@.len() == column_prefix(rad as int, q as int));
        }
        q += 1;
    }
    proof {
        lemma_column_prefix_total(rad as int);
    }
    cells
}

/// Picks every `step`-th enumerated cell as a mine.
fn place_mines_every_kth(cells: &Vec<HexCoordinate>, step: usize) -> (mines: CoordSet)
    requires
        step >= 1,
        coords_distinct(cells@),
    ensures
        mines.wf(),
        mines@ == seq_coords(every_kth_seq(cells@, step as int)),
        forall|p: (int, int)| #[trigger] mines@.contains(p) ==> in_seq(cells@, p),
{
    let mut mines = CoordSet::new();
    proof {
        assert(mines.seq() =~= Seq::<HexCoordinate>::empty());
        assert(cells@.skip(0) =~= cells@);
        assert(Seq::<HexCoordinate>::empty() + every_kth_seq(cells@, step as int)
            =~= every_kth_seq(cells@, step as int));
    }
    let n = cells.len();
    let mut i: usize = 0;
    while i < n
        invariant
            step >= 1,
            n == cells@.len(),
            coords_distinct(cells@),
            mines.wf(),
            i <= n,
            every_kth_seq(cells@, step as int) == mines.seq() + every_kth_seq(
                cells@.skip(i as int),
                step as int,
            ),
            forall|p: (int, int)| #[trigger] mines@.contains(p) ==> in_seq(cells@.take(i as int), p),
        decreases n - i,
    {
        let ghost old_i = i as int;
        let ghost old_mines = mines.seq();
        let c = cells[i];
        proof {
            if mines@.contains(c@) {
                let j = choose|j: int|
                    0 <= j < old_i && (#[trigger] cells@.take(old_i)[j])@ == c@;
                assert(cells@[j]@ == cells@[old_i]@);
            }
        }
        mines.insert(c);
        let next: usize = if n - i <= step {
            n
        } else {
            i + step
        };
        proof {
            let rest = cells@.skip(old_i);
            assert(rest.len() == cells@.len() - old_i > 0);
            assert(rest[0] == cells@[old_i]);
            if rest.len() <= step as int {
                assert(every_kth_seq(rest, step as int) == seq![rest[0]]);
                assert(cells@.skip(next as int).len() == 0);
                assert(every_kth_seq(cells@.skip(next as int), step as int)
                    == Seq::<HexCoordinate>::empty());
                assert(old_mines + seq![rest[0]] =~= (old_mines.push(c)) + Seq::<
                    HexCoordinate,
                >::empty());
            } else {
                assert(every_kth_seq(rest, step as int) == seq![rest[0]] + every_kth_seq(
                    rest.skip(step as int),
                    step as int,
                ));
                assert(rest.skip(step as int) =~= cells@.skip(next as int));
                assert(old_mines + (seq![rest[0]] + every_kth_seq(
                    cells@.skip(next as int),
                    step as int,
                )) =~= (old_mines.push(c)) + every_kth_seq(cells@.skip(next as int), step as int));
            }
            assert forall|p: (int, int)| #[trigger] mines@.contains(p) implies in_seq(
                cells@.take(next as int),
                p,
            ) by {
                if p == c@ {
                    assert(cells@.take(next as int)[old_i]@ == p);
                } else {
                    let j = choose|j: int|
                        0 <= j < old_i && (#[trigger] cells@.take(old_i)[j])@ == p;
                    assert(cells@.take(next as int)[j]@ == p);
                }
            }
        }
        i = next;
    }
    proof {
        assert(cells@.skip(n as int).len() == 0);
        assert(every_kth_seq(cells@.skip(n as int), step as int) == Seq::<HexCoordinate>::empty());
        assert(mines.seq() + Seq::<HexCoordinate>::empty() =~= mines.seq());
        mines.lemma_view_seq();
    }
    mines
}

/// Keeps the in-bounds picks as the mine set.
fn collect_mines(radius: u32, picks: &Vec<HexCoordinate>) -> (mines: CoordSet)
    requires
        radius < 0x4000_0000,
    ensures
        mines.wf(),
        forall|p: (int, int)| #[trigger]
            mines@.contains(p) <==> in_seq(picks@, p) && cube_len(p) <= radius as int,
{
    let mut mines = CoordSet::new();
    let n = picks.len();
    let mut i: usize = 0;
    while i < n
        invariant
            n == picks@.len(),
            mines.wf(),
            i <= n,
            forall|p: (int, int)| #[trigger]
                mines@.contains(p) <==> in_seq(picks@.take(i as int), p) && cube_len(p)
                    <= radius as int,
        decreases n - i,
    {
        let c = picks[i];
        if c.cube_length() <= radius as u64 {
            mines.insert(c);
        }
        proof {
            assert forall|p: (int, int)| #[trigger]
                mines@.contains(p) <==> in_seq(picks@.take(i + 1 as int), p) && cube_len(p)
                    <= radius as int by {
                if mines@.contains(p) {
                    if p != picks@[i as int]@ {
                        let j = choose|j: int|
                            0 <= j < i && (#[trigger] picks@.take(i as int)[j])@ == p;
                        assert(picks@.take(i + 1 as int)[j]@ == p);
                    } else {
                        assert(picks@.take(i + 1 as int)[i as int]@ == p);
                    }
                }
                if in_seq(picks@.take(i + 1 as int), p) && cube_len(p) <= radius as int {
                    let j = choose|j: int|
                        0 <= j < i + 1 && (#[trigger] picks@.take(i + 1 as int)[j])@ == p;
                    if j < i {
                        assert(picks@.take(i as int)[j]@ == p);
                    } else {
                        assert(p == picks@[i as int]@);
                    }
                }
            }
        }
        i += 1;
    }
    proof {
        assert(picks@.take(n as int) =~= picks@);
    }
    mines
}

/// Counts the mines among the six neighbors of `c`.
fn count_adjacent(mines: &CoordSet, c: HexCoordinate, radius: u32) -> (cnt: u8)
    requires
        radius < 0x4000_0000,
        cube_len(c@) <= radius as int,
    ensures
        cnt as int == adjacent_mines(mines@, c@),
{
    let nbrs = c.neighbors();
    let mut cnt: u8 = 0;
    let mut j: usize = 0;
    while j < 6
        invariant
            nbrs@.len() == 6,
            forall|i: int| 0 <= i < 6 ==> #[trigger] nbrs@[i]@ == neighbor_at(c@, i),
            j <= 6,
            cnt <= j,
            cnt as int == adj_mines_upto(mines@, c@, j as int),
        decreases 6 - j,
    {
        if mines.contains(nbrs[j]) {
            cnt += 1;
        }
        j += 1;
    }
    cnt
}

/// Builds the number map: every non-mine cell with a positive adjacent-mine
/// count, bound to that count.
fn compute_numbers(radius: u32, cells: &Vec<HexCoordinate>, mines: &CoordSet) -> (numbers: CoordMap)
    requires
        radius < 0x4000_0000,
        coords_distinct(cells@),
        forall|i: int| 0 <= i < cells@.len() ==> cube_len((#[trigger] cells@[i])@) <= radius as int,
        mines.wf(),
    ensures
        numbers.wf(),
        forall|p: (int, int)| #[trigger]
            numbers@.dom().contains(p) <==> in_seq(cells@, p) && !mines@.contains(p)
                && adjacent_mines(mines@, p) >= 1,
        forall|p: (int, int)|
            numbers@.dom().contains(p) ==> #[trigger] numbers@[p] as int == adjacent_mines(
                mines@,
                p,
            ),
{
    let mut numbers = CoordMap::new();
    let n = cells.len();
    let mut i: usize = 0;
    while i < n
        invariant
            radius < 0x4000_0000,
            n == cells@.len(),
            coords_distinct(cells@),
            forall|ix: int|
                0 <= ix < cells@.len() ==> cube_len((#[trigger] cells@[ix])@) <= radius as int,
            mines.wf(),
            numbers.wf(),
            i <= n,
            forall|p: (int, int)| #[trigger]
                numbers@.dom().contains(p) <==> in_seq(cells@.take(i as int), p)
                    && !mines@.contains(p) && adjacent_mines(mines@, p) >= 1,
            forall|p: (int, int)|
                numbers@.dom().contains(p) ==> #[trigger] numbers@[p] as int == adjacent_mines(
                    mines@,
                    p,
                ),
        decreases n - i,
    {
        let c = cells[i];
        let ghost before_dom = numbers@.dom();
        if !mines.contains(c) {
            let cnt = count_adjacent(mines, c, radius);
            if cnt >= 1 {
                proof {
                    if numbers@.dom().contains(c@) {
                        let j = choose|j: int|
                            0 <= j < i && (#[trigger] cells@.take(i as int)[j])@ == c@;
                        assert(cells@[j]@ == cells@[i as int]@);
                    }
                }
                numbers.insert(c, cnt);
            }
        }
        proof {
            assert forall|p: (int, int)| #[trigger]
                numbers@.dom().contains(p) <==> in_seq(cells@.take(i + 1 as int), p)
                    && !mines@.contains(p) && adjacent_mines(mines@, p) >= 1 by {
                if numbers@.dom().contains(p) {
                    if before_dom.contains(p) {
                        let j = choose|j: int|
                            0 <= j < i && (#[trigger] cells@.take(i as int)[j])@ == p;
                        assert(cells@.take(i + 1 as int)[j]@ == p);
                    } else {
                        assert(cells@.take(i + 1 as int)[i as int]@ == p);
                    }
                }
                if in_seq(cells@.take(i + 1 as int), p) && !mines@.contains(p) && adjacent_mines(
                    mines@,
                    p,
                ) >= 1 {
                    let j = choose|j: int|
                        0 <= j < i + 1 && (#[trigger] cells@.take(i + 1 as int)[j])@ == p;
                    if j < i {
                        assert(cells@.take(i as int)[j]@ == p);
                    } else {
                        assert(p == cells@[i as int]@);
                    }
                }
            }
        }
        i += 1;
    }
    proof {
        assert(cells@.take(n as int) =~= cells@);
    }
    numbers
}

impl Board {
    /// Builds the board of the given radius, with every `mine_step`-th
    /// enumerated cell a mine, and the adjacency numbers computed from the
    /// mine set.
    pub fn generate(radius: u32, mine_step: usize) -> (board: Board)
        requires
            mine_step >= 1,
            radius < 0x4000_0000,
        ensures
            board.wf(),
            board.radius_spec() == radius as int,
            board.cells_seq().len() == hex_count(radius as int),
            board.mine_set() == seq_coords(every_kth_seq(board.cells_seq(), mine_step as int)),
    {
        let cells = enumerate_cells(radius);
        let mines = place_mines_every_kth(&cells, mine_step);
        Board::assemble(radius, cells, mines)
    }

    /// Builds the board of the given radius with the given mine cells (picks
    /// outside the board are ignored; duplicates collapse).
    pub fn generate_with_mines(radius: u32, picks: &Vec<HexCoordinate>) -> (board: Board)
        requires
            radius < 0x4000_0000,
        ensures
            board.wf(),
            board.radius_spec() == radius as int,
            board.cells_seq().len() == hex_count(radius as int),
            forall|p: (int, int)| #[trigger]
                board.mine_at(p) <==> in_seq(picks@, p) && cube_len(p) <= radius as int,
    {
        let cells = enumerate_cells(radius);
        let mines = collect_mines(radius, picks);
        Board::assemble(radius, cells, mines)
    }

    /// Assembles a board from enumerated cells and an in-bounds mine set.
    fn assemble(radius: u32, cells: Vec<HexCoordinate>, mines: CoordSet) -> (board: Board)
        requires
            radius < 0x4000_0000,
            coords_distinct(cells@),
            cells@.len() == hex_count(radius as int),
            forall|p: (int, int)| #[trigger] in_seq(cells@, p) <==> cube_len(p) <= radius as int,
            mines.wf(),
            forall|p: (int, int)| #[trigger] mines@.contains(p) ==> cube_len(p) <= radius as int,
        ensures
            board.wf(),
            board.radius_spec() == radius as int,
            board.cells_seq() == cells@,
            board.mine_set() == mines@,
    {
        proof {
            assert forall|i: int| 0 <= i < cells@.len() implies cube_len((#[trigger] cells@[i])@)
                <= radius as int by {
                assert(in_seq(cells@, cells@[i]@));
            }
        }
        let numbers = compute_numbers(radius, &cells, &mines);
        let board = Board { radius, cells, mines, numbers };
        proof {
            lemma_adj_mines_bounds(board.mine_set(), (0, 0), 6);
            assert forall|p: (int, int)| #[trigger]
                board.numbered_at(p) implies board.number_map()[p] as int == board.count_at(p) by {
            }
        }
        board
    }
}

} // verus!
