//! The board: the cell store over the 9 x 9 grid, the fleet placed on it,
//! hit resolution, and exact progress tracking.

use vstd::arithmetic::div_mod::lemma_fundamental_div_mod;
use vstd::arithmetic::div_mod::lemma_mod_bound;
use vstd::prelude::*;

use crate::cell::Cell;
use crate::geometry::in_grid;
use crate::geometry::lemma_nth_step_injective;
use crate::geometry::nth_step;
use crate::geometry::spec_step;
use crate::geometry::Direction;
use crate::geometry::GRID_COLS;
use crate::geometry::GRID_ROWS;
use crate::geometry::DirectionName;
use crate::geometry::Position;
use crate::ship::fleet_size;
use crate::ship::ship_size;
use crate::ship::Ship;
use crate::ship::ShipType;

verus! {

/// Number of squares of the grid.
pub const GRID_CELLS: usize = 81;

/// How many random starts the automatic placement tries before giving up,
/// so that a crowded board cannot hang the engine.
pub const MAX_PLACEMENT_TRIES: usize = 10000;

/// Where the cell of an in-grid position sits in the flat cell store:
/// row-major, `(y - 1) * 9 + (x - 1)`.
pub open spec fn cell_index(p: Position) -> int {
    (p.y - 1) * 9 + (p.x - 1)
}

/// The position whose cell sits at index `i` of the flat store.
pub open spec fn index_position(i: int) -> Position {
    Position { x: (i % 9 + 1) as i32, y: (i / 9 + 1) as i32 }
}

/// The flat store is well formed: one cell per grid square, each sitting at
/// the index its own position maps to.
pub open spec fn cells_wf(s: Seq<Cell>) -> bool {
    &&& s.len() == GRID_CELLS
    &&& forall|i: int|
        0 <= i < s.len() ==> in_grid((#[trigger] s[i]).position) && cell_index(s[i].position) == i
}

/// The cell store of a freshly built board: every square unoccupied and
/// never hit.
pub open spec fn blank_cells() -> Seq<Cell> {
    Seq::new(
        GRID_CELLS as nat,
        |i: int| Cell { position: index_position(i), occupied: false, hitcount: 0 },
    )
}

/// For a flat index of the store, its position is a grid square and maps
/// back to the same index.
pub proof fn lemma_index_position_inverse(i: int)
    requires
        0 <= i < GRID_CELLS,
    ensures
        in_grid(index_position(i)),
        cell_index(index_position(i)) == i,
{
    lemma_fundamental_div_mod(i, 9);
    lemma_mod_bound(i, 9);
}

/// How many squares of the store a ship occupies.
pub open spec fn count_occupied(s: Seq<Cell>) -> int
    decreases s.len(),
{
    if s.len() == 0 {
        0
    } else {
        count_occupied(s.drop_last()) + if s.last().occupied {
            1int
        } else {
            0int
        }
    }
}

/// How many occupied squares of the store have been hit at least once.
pub open spec fn count_hit(s: Seq<Cell>) -> int
    decreases s.len(),
{
    if s.len() == 0 {
        0
    } else {
        count_hit(s.drop_last()) + if s.last().occupied && s.last().hitcount > 0 {
            1int
        } else {
            0int
        }
    }
}

/// Counting one more cell of a prefix adds that cell's own contribution.
pub proof fn lemma_count_take_succ(s: Seq<Cell>, i: int)
    requires
        0 <= i < s.len(),
    ensures
        count_occupied(s.take(i + 1)) == count_occupied(s.take(i)) + if s[i].occupied {
            1int
        } else {
            0int
        },
        count_hit(s.take(i + 1)) == count_hit(s.take(i)) + if s[i].occupied && s[i].hitcount > 0 {
            1int
        } else {
            0int
        },
{
    assert(s.take(i + 1).drop_last() =~= s.take(i));
    assert(s.take(i + 1).last() == s[i]);
}

/// The whole sequence is its own full prefix.
pub proof fn lemma_count_take_full(s: Seq<Cell>)
    ensures
        count_occupied(s.take(s.len() as int)) == count_occupied(s),
        count_hit(s.take(s.len() as int)) == count_hit(s),
{
    assert(s.take(s.len() as int) =~= s);
}

/// Replacing one cell shifts each count by the difference of the two cells'
/// contributions.
pub proof fn lemma_count_update(s: Seq<Cell>, j: int, c: Cell)
    requires
        0 <= j < s.len(),
    ensures
        count_occupied(s.update(j, c)) == count_occupied(s) - (if s[j].occupied {
            1int
        } else {
            0int
        }) + (if c.occupied {
            1int
        } else {
            0int
        }),
        count_hit(s.update(j, c)) == count_hit(s) - (if s[j].occupied && s[j].hitcount > 0 {
            1int
        } else {
            0int
        }) + (if c.occupied && c.hitcount > 0 {
            1int
        } else {
            0int
        }),
    decreases s.len(),
{
    let t = s.update(j, c);
    if j == s.len() - 1 {
        assert(t.drop_last() =~= s.drop_last());
        assert(t.last() == c);
    } else {
        assert(t.drop_last() =~= s.drop_last().update(j, c));
        assert(t.last() == s.last());
        lemma_count_update(s.drop_last(), j, c);
    }
}

/// No more occupied squares have been hit than there are occupied squares.
pub proof fn lemma_count_hit_le(s: Seq<Cell>)
    ensures
        0 <= count_hit(s) <= count_occupied(s) <= s.len(),
    decreases s.len(),
{
    if s.len() > 0 {
        lemma_count_hit_le(s.drop_last());
    }
}

/// Once every occupied square has been hit, the two counts coincide: the
/// progress ratio is exactly one.
pub proof fn lemma_all_hit_full_progress(s: Seq<Cell>)
    requires
        forall|i: int|
            0 <= i < s.len() ==> ((#[trigger] s[i]).occupied ==> s[i].hitcount > 0),
    ensures
        count_hit(s) == count_occupied(s),
    decreases s.len(),
{
    if s.len() > 0 {
        assert(s[s.len() - 1] == s.last());
        lemma_all_hit_full_progress(s.drop_last());
    }
}

/// A store without any occupied square counts zero occupied.
pub proof fn lemma_count_occupied_zero(s: Seq<Cell>)
    requires
        forall|i: int| 0 <= i < s.len() ==> !(#[trigger] s[i]).occupied,
    ensures
        count_occupied(s) == 0,
    decreases s.len(),
{
    if s.len() > 0 {
        assert(s[s.len() - 1] == s.last());
        lemma_count_occupied_zero(s.drop_last());
    }
}

/// Why a placement attempt fails.
#[derive(PartialEq, Eq, Structural, Clone, Copy, Debug)]
pub enum PlacementError {
    /// Some square of the run leaves the grid.
    OutOfBounds,
    /// Some square of the run is already occupied by another ship.
    Collision,
    /// The bounded randomized search gave up without finding a free run.
    Exhausted,
}

/// A square a run may claim: on the grid and not yet occupied.
pub open spec fn step_free(cells: Seq<Cell>, p: Position) -> bool {
    in_grid(p) && !cells[cell_index(p)].occupied
}

/// The first `k` squares of the run from `start` along `dir` are all free.
pub open spec fn run_prefix_ok(cells: Seq<Cell>, start: Position, dir: Direction, k: int) -> bool {
    forall|j: nat| j < k ==> step_free(cells, #[trigger] nth_step(start, dir, j))
}

/// A whole run of `size` squares from `start` along `dir` is free: the
/// placement must succeed.
pub open spec fn run_ok(cells: Seq<Cell>, start: Position, dir: Direction, size: int) -> bool {
    run_prefix_ok(cells, start, dir, size)
}

/// The ordered squares a run of `size` from `start` along `dir` claims.
pub open spec fn run_seq(start: Position, dir: Direction, size: int) -> Seq<Position> {
    Seq::new(size as nat, |k: int| nth_step(start, dir, k as nat))
}

/// The error a failing run reports: walking from `start`, the first square
/// that is not free decides between leaving the grid and colliding.
pub open spec fn run_error(cells: Seq<Cell>, start: Position, dir: Direction, size: int) -> PlacementError {
    let k = choose|k: int|
        0 <= k < size && run_prefix_ok(cells, start, dir, k) && !step_free(
            cells,
            nth_step(start, dir, k as nat),
        );
    if in_grid(nth_step(start, dir, k as nat)) {
        PlacementError::Collision
    } else {
        PlacementError::OutOfBounds
    }
}

/// The store with every listed square marked occupied and nothing else
/// changed.
pub open spec fn mark_positions(cells: Seq<Cell>, ps: Seq<Position>) -> Seq<Cell> {
    Seq::new(
        cells.len(),
        |i: int|
            if ps.contains(cells[i].position) {
                Cell { occupied: true, ..cells[i] }
            } else {
                cells[i]
            },
    )
}

/// A board: the flat cell store, the placed fleet, and the derived progress
/// state refreshed on every hit.
pub struct Board {
    pub cells: Vec<Cell>,
    pub ships: Vec<Ship>,
    pub progress_hits: usize,
    pub progress_occupied: usize,
    pub game_complete: bool,
}

/// The ship's squares walk step by step along direction `d` from its first
/// square.
pub open spec fn ship_run_along(s: Ship, d: Direction) -> bool {
    d.wf() && forall|k: int|
        0 <= k < s.cells@.len() ==> #[trigger] s.cells@[k] == nth_step(s.cells@[0], d, k as nat)
}

/// A placed ship is geometrically sound: as many squares as its class
/// demands, forming a straight contiguous run within the grid.
pub open spec fn ship_run_wf(s: Ship) -> bool {
    &&& s.cells@.len() == ship_size(s.ship_type)
    &&& exists|d: Direction| ship_run_along(s, d)
    &&& forall|k: int| 0 <= k < s.cells@.len() ==> in_grid(#[trigger] s.cells@[k])
}

/// Every square of the ship is marked occupied in the store.
pub open spec fn ship_on_cells(s: Ship, cells: Seq<Cell>) -> bool {
    forall|k: int|
        0 <= k < s.cells@.len() ==> cells[cell_index(#[trigger] s.cells@[k])].occupied
}

impl Board {
    /// The board invariant: a well-formed store, and a fleet of sound,
    /// pairwise disjoint ships of pairwise distinct classes, each lying on
    /// occupied squares.
    pub open spec fn wf(self) -> bool {
        &&& cells_wf(self.cells@)
        &&& forall|i: int|
            0 <= i < self.ships@.len() ==> ship_run_wf(#[trigger] self.ships@[i]) && ship_on_cells(
                self.ships@[i],
                self.cells@,
            )
        &&& forall|i: int, j: int|
            0 <= i < self.ships@.len() && 0 <= j < self.ships@.len() && i != j ==> (
            #[trigger] self.ships@[i]).ship_type != (#[trigger] self.ships@[j]).ship_type
        &&& forall|i: int, j: int, k: int, l: int|
            0 <= i < self.ships@.len() && 0 <= j < self.ships@.len() && i != j && 0 <= k
                < self.ships@[i].cells@.len() && 0 <= l < self.ships@[j].cells@.len() ==> (
            #[trigger] self.ships@[i].cells@[k]) != (#[trigger] self.ships@[j].cells@[l])
    }

    /// A board in its initial state: no ships, no occupancy, no shots, and
    /// zero progress.
    pub open spec fn is_blank(self) -> bool {
        &&& self.cells@ == blank_cells()
        &&& self.ships@.len() == 0
        &&& self.progress_hits == 0
        &&& self.progress_occupied == 0
        &&& !self.game_complete
    }

    /// Build the empty 9 x 9 board: all squares unoccupied, no fleet.
    pub fn new() -> (b: Board)
        ensures
            b.wf(),
            b.is_blank(),
    {
        let mut cells: Vec<Cell> = Vec::new();
        let mut i: usize = 0;
        while i < GRID_CELLS
            invariant
                i <= GRID_CELLS,
                cells@.len() == i,
                forall|j: int| 0 <= j < i ==> cells@[j] == blank_cells()[j],
            decreases GRID_CELLS - i,
        {
            let x: i32 = (i % 9) as i32 + 1;
            let y: i32 = (i / 9) as i32 + 1;
            cells.push(Cell::new(Position { x, y }));
            i = i + 1;
        }
        assert(cells@ =~= blank_cells());
        assert forall|j: int| 0 <= j < GRID_CELLS implies in_grid(
            (#[trigger] blank_cells()[j]).position,
        ) && cell_index(blank_cells()[j].position) == j by {
            lemma_index_position_inverse(j);
        }
        Board {
            cells,
            ships: Vec::new(),
            progress_hits: 0,
            progress_occupied: 0,
            game_complete: false,
        }
    }

    /// Bounds check: is `pos` a square of the grid?
    pub fn is_valid_position(&self, pos: &Position) -> (r: bool)
        ensures
            r == in_grid(*pos),
    {
        (pos.x > 0 && pos.x < GRID_COLS + 1) && (pos.y > 0 && pos.y < GRID_ROWS + 1)
    }

    /// The store spans the whole grid, so it has a cell for `pos` exactly
    /// when `pos` is a grid square.
    pub fn contains_cell(&self, pos: &Position) -> (r: bool)
        ensures
            r == in_grid(*pos),
    {
        self.is_valid_position(pos)
    }

    /// One step from `pos` in direction `dir`: pure coordinate arithmetic,
    /// no bounds check on the result.
    pub fn get_next_pos(&self, pos: Position, dir: Direction) -> (p: Position)
        requires
            dir.wf(),
            i32::MIN < pos.x < i32::MAX,
            i32::MIN < pos.y < i32::MAX,
        ensures
            p == spec_step(pos, dir),
    {
        Position { x: pos.x + dir.x as i32, y: pos.y + dir.y as i32 }
    }

    /// One step from `pos` in direction `dir`, together with that square's
    /// cell; nothing when the step leaves the grid.
    pub fn get_next_cell(&self, pos: Position, dir: Direction) -> (r: Option<(Position, Cell)>)
        requires
            self.wf(),
            dir.wf(),
            i32::MIN < pos.x < i32::MAX,
            i32::MIN < pos.y < i32::MAX,
        ensures
            in_grid(spec_step(pos, dir)) ==> r == Some(
                (spec_step(pos, dir), self.cells@[cell_index(spec_step(pos, dir))]),
            ),
            !in_grid(spec_step(pos, dir)) ==> r is None,
    {
        let p = self.get_next_pos(pos, dir);
        if self.is_valid_position(&p) {
            let idx: usize = ((p.y - 1) * 9 + (p.x - 1)) as usize;
            Some((p, self.cells[idx]))
        } else {
            None
        }
    }

    /// The grid squares whose cells a ship occupies, in store order.
    pub fn get_occupied_cells(&self) -> (r: Vec<Position>)
        requires
            self.wf(),
        ensures
            r@.len() == count_occupied(self.cells@),
            forall|j: int|
                0 <= j < r@.len() ==> in_grid(#[trigger] r@[j]) && self.cells@[cell_index(
                    r@[j],
                )].occupied,
            forall|p: Position|
                in_grid(p) && self.cells@[cell_index(p)].occupied ==> r@.contains(p),
            forall|j: int, k: int| 0 <= j < k < r@.len() ==> r@[j] != r@[k],
    {
        let mut r: Vec<Position> = Vec::new();
        let mut i: usize = 0;
        while i < GRID_CELLS
            invariant
                self.wf(),
                i <= GRID_CELLS,
                r@.len() == count_occupied(self.cells@.take(i as int)),
                forall|j: int|
                    0 <= j < r@.len() ==> in_grid(#[trigger] r@[j]) && self.cells@[cell_index(
                        r@[j],
                    )].occupied,
                forall|m: int|
                    0 <= m < i && (#[trigger] self.cells@[m]).occupied ==> r@.contains(
                        self.cells@[m].position,
                    ),
                forall|j: int| 0 <= j < r@.len() ==> cell_index(#[trigger] r@[j]) < i,
                forall|j: int, k: int|
                    0 <= j < k < r@.len() ==> cell_index(#[trigger] r@[j]) < cell_index(
                        #[trigger] r@[k],
                    ),
            decreases GRID_CELLS - i,
        {
            proof {
                lemma_count_take_succ(self.cells@, i as int);
            }
            let ghost r0 = r@;
            if self.cells[i].is_occupied() {
                r.push(self.cells[i].position);
            }
            proof {
                assert forall|q: Position| r0.contains(q) implies r@.contains(q) by {
                    let j = choose|j: int| 0 <= j < r0.len() && r0[j] == q;
                    assert(r@[j] == q);
                }
                if self.cells@[i as int].occupied {
                    assert(r@[r0.len() as int] == self.cells@[i as int].position);
                    assert(r@.contains(self.cells@[i as int].position));
                }
                assert forall|j: int| 0 <= j < r@.len() implies cell_index(#[trigger] r@[j]) < i
                    + 1 by {
                    if j < r0.len() {
                        assert(r@[j] == r0[j]);
                    } else {
                        assert(r@[j] == self.cells@[i as int].position);
                    }
                }
                assert forall|j: int, k: int| 0 <= j < k < r@.len() implies cell_index(
                    #[trigger] r@[j],
                ) < cell_index(#[trigger] r@[k]) by {
                    assert(r@[j] == r0[j]);
                    if k < r0.len() {
                        assert(r@[k] == r0[k]);
                    } else {
                        assert(r@[k] == self.cells@[i as int].position);
                    }
                }
            }
            i = i + 1;
        }
        proof {
            lemma_count_take_full(self.cells@);
        }
        assert forall|p: Position|
            in_grid(p) && self.cells@[cell_index(p)].occupied implies r@.contains(p) by {
            let m = cell_index(p);
            assert(self.cells@[m].position == p);
        }
        r
    }

    /// The grid squares no ship occupies, in store order.
    pub fn get_unoccupied_cells(&self) -> (r: Vec<Position>)
        requires
            self.wf(),
        ensures
            r@.len() == GRID_CELLS - count_occupied(self.cells@),
            forall|j: int|
                0 <= j < r@.len() ==> in_grid(#[trigger] r@[j]) && !self.cells@[cell_index(
                    r@[j],
                )].occupied,
            forall|p: Position|
                in_grid(p) && !self.cells@[cell_index(p)].occupied ==> r@.contains(p),
            forall|j: int, k: int| 0 <= j < k < r@.len() ==> r@[j] != r@[k],
    {
        let mut r: Vec<Position> = Vec::new();
        let mut i: usize = 0;
        while i < GRID_CELLS
            invariant
                self.wf(),
                i <= GRID_CELLS,
                r@.len() == i - count_occupied(self.cells@.take(i as int)),
                count_occupied(self.cells@.take(i as int)) <= i,
                forall|j: int|
                    0 <= j < r@.len() ==> in_grid(#[trigger] r@[j]) && !self.cells@[cell_index(
                        r@[j],
                    )].occupied,
                forall|m: int|
                    0 <= m < i && !(#[trigger] self.cells@[m]).occupied ==> r@.contains(
                        self.cells@[m].position,
                    ),
                forall|j: int| 0 <= j < r@.len() ==> cell_index(#[trigger] r@[j]) < i,
                forall|j: int, k: int|
                    0 <= j < k < r@.len() ==> cell_index(#[trigger] r@[j]) < cell_index(
                        #[trigger] r@[k],
                    ),
            decreases GRID_CELLS - i,
        {
            proof {
                lemma_count_take_succ(self.cells@, i as int);
                lemma_count_hit_le(self.cells@.take(i as int));
            }
            let ghost r0 = r@;
            if !self.cells[i].is_occupied() {
                r.push(self.cells[i].position);
            }
            proof {
                assert forall|q: Position| r0.contains(q) implies r@.contains(q) by {
                    let j = choose|j: int| 0 <= j < r0.len() && r0[j] == q;
                    assert(r@[j] == q);
                }
                if !self.cells@[i as int].occupied {
                    assert(r@[r0.len() as int] == self.cells@[i as int].position);
                    assert(r@.contains(self.cells@[i as int].position));
                }
                assert forall|j: int| 0 <= j < r@.len() implies cell_index(#[trigger] r@[j]) < i
                    + 1 by {
                    if j < r0.len() {
                        assert(r@[j] == r0[j]);
                    } else {
                        assert(r@[j] == self.cells@[i as int].position);
                    }
                }
                assert forall|j: int, k: int| 0 <= j < k < r@.len() implies cell_index(
                    #[trigger] r@[j],
                ) < cell_index(#[trigger] r@[k]) by {
                    assert(r@[j] == r0[j]);
                    if k < r0.len() {
                        assert(r@[k] == r0[k]);
                    } else {
                        assert(r@[k] == self.cells@[i as int].position);
                    }
                }
            }
            i = i + 1;
        }
        proof {
            lemma_count_take_full(self.cells@);
        }
        assert forall|p: Position|
            in_grid(p) && !self.cells@[cell_index(p)].occupied implies r@.contains(p) by {
            let m = cell_index(p);
            assert(self.cells@[m].position == p);
        }
        r
    }

    /// Recompute the derived progress state by a full scan: how many squares
    /// are occupied, how many of those have been hit, and whether the game
    /// has been completed (a completed game stays completed).
    pub fn update_status(&mut self)
        ensures
            final(self).cells@ == old(self).cells@,
            final(self).ships@ == old(self).ships@,
            final(self).progress_hits == count_hit(old(self).cells@),
            final(self).progress_occupied == count_occupied(old(self).cells@),
            final(self).game_complete == spec_complete_after(
                old(self).cells@,
                old(self).game_complete,
            ),
    {
        let mut occupied: usize = 0;
        let mut hits: usize = 0;
        let n = self.cells.len();
        let mut i: usize = 0;
        while i < n
            invariant
                n == self.cells@.len(),
                i <= n,
                occupied == count_occupied(self.cells@.take(i as int)),
                hits == count_hit(self.cells@.take(i as int)),
                hits <= occupied <= i,
            decreases n - i,
        {
            proof {
                lemma_count_take_succ(self.cells@, i as int);
            }
            if self.cells[i].is_occupied() {
                occupied = occupied + 1;
                if self.cells[i].was_hit_successfully() {
                    hits = hits + 1;
                }
            }
            i = i + 1;
        }
        proof {
            lemma_count_take_full(self.cells@);
        }
        self.progress_hits = hits;
        self.progress_occupied = occupied;
        if occupied > 0 && hits == occupied {
            self.game_complete = true;
        }
    }

    /// Resolve a shot at `pos`. Outside the grid nothing changes and the
    /// shot misses. On the grid the square's hit counter always grows, the
    /// derived progress state is refreshed, and the shot succeeds exactly
    /// when it is the first ever to land on an occupied square.
    pub fn hit_cell(&mut self, pos: Position) -> (r: bool)
        requires
            old(self).wf(),
            in_grid(pos) ==> old(self).cells@[cell_index(pos)].hitcount < usize::MAX,
        ensures
            final(self).wf(),
            final(self).ships@ == old(self).ships@,
            !in_grid(pos) ==> r == false && *final(self) == *old(self),
            in_grid(pos) ==> ({
                &&& final(self).cells@ == spec_hit_cells(old(self).cells@, pos)
                &&& r == spec_hit_result(old(self).cells@, pos)
                &&& final(self).progress_hits == count_hit(final(self).cells@)
                &&& final(self).progress_occupied == count_occupied(final(self).cells@)
                &&& final(self).game_complete == spec_complete_after(
                    final(self).cells@,
                    old(self).game_complete,
                )
            }),
    {
        if !self.is_valid_position(&pos) {
            return false;
        }
        let idx: usize = ((pos.y - 1) * 9 + (pos.x - 1)) as usize;
        let mut c = self.cells[idx];
        c.hit();
        self.cells.set(idx, c);
        let hit = c.is_occupied() && c.get_hitcount() == 1;
        proof {
            assert forall|i: int|
                0 <= i < self.ships@.len() implies ship_run_wf(#[trigger] self.ships@[i])
                && ship_on_cells(self.ships@[i], self.cells@) by {
                assert(ship_on_cells(old(self).ships@[i], old(self).cells@));
            }
        }
        self.update_status();
        hit
    }

    /// Render the board as 9 x 9 characters, the outer index running over
    /// columns as the original presentation had it: `'0'` for a free
    /// square, `'1'` for a ship square not yet hit, `'X'` for a ship square
    /// that has been hit.
    pub fn get_contents(&self) -> (r: Vec<Vec<char>>)
        requires
            self.wf(),
        ensures
            r@.len() == 9,
            forall|x: int| 0 <= x < 9 ==> (#[trigger] r@[x])@.len() == 9,
            forall|x: int, y: int|
                0 <= x < 9 && 0 <= y < 9 ==> #[trigger] r@[x]@[y] == render_char(
                    self.cells@[y * 9 + x],
                ),
    {
        let mut contents: Vec<Vec<char>> = Vec::new();
        let mut x: usize = 0;
        while x < 9
            invariant
                self.wf(),
                x <= 9,
                contents@.len() == x,
                forall|a: int| 0 <= a < x ==> (#[trigger] contents@[a])@.len() == 9,
                forall|a: int, y: int|
                    0 <= a < x && 0 <= y < 9 ==> #[trigger] contents@[a]@[y] == render_char(
                        self.cells@[y * 9 + a],
                    ),
            decreases 9 - x,
        {
            let mut column: Vec<char> = Vec::new();
            let mut y: usize = 0;
            while y < 9
                invariant
                    self.wf(),
                    x < 9,
                    y <= 9,
                    column@.len() == y,
                    forall|b: int|
                        0 <= b < y ==> #[trigger] column@[b] == render_char(
                            self.cells@[b * 9 + x as int],
                        ),
                decreases 9 - y,
            {
                let idx: usize = y * 9 + x;
                let cell = self.cells[idx];
                let ch: char = if cell.is_occupied() {
                    if cell.was_hit_successfully() {
                        'X'
                    } else {
                        '1'
                    }
                } else {
                    '0'
                };
                column.push(ch);
                y = y + 1;
            }
            contents.push(column);
            x = x + 1;
        }
        contents
    }

    /// The progress ratio as an exact pair: how many occupied squares have
    /// been hit, out of how many squares are occupied (both as of the last
    /// refresh). The percentage of the original presentation is
    /// `100 * hits / occupied`.
    pub fn get_progress(&self) -> (r: (usize, usize))
        ensures
            r == (self.progress_hits, self.progress_occupied),
    {
        (self.progress_hits, self.progress_occupied)
    }

    pub fn is_game_complete(&self) -> (r: bool)
        ensures
            r == self.game_complete,
    {
        self.game_complete
    }

    /// Walk the run of `size` squares from `start` along `dir` and collect
    /// it, without touching the board: the first square that is not free
    /// decides the error.
    fn scan_run(&self, start: Position, dir: Direction, size: u8) -> (r: Result<
        Vec<Position>,
        PlacementError,
    >)
        requires
            self.wf(),
            dir.wf(),
            1 <= size <= 8,
        ensures
            r matches Ok(ps) ==> run_ok(self.cells@, start, dir, size as int) && ps@ == run_seq(
                start,
                dir,
                size as int,
            ),
            run_ok(self.cells@, start, dir, size as int) ==> r is Ok,
            r matches Err(e) ==> !run_ok(self.cells@, start, dir, size as int) && e == run_error(
                self.cells@,
                start,
                dir,
                size as int,
            ) && e != PlacementError::Exhausted,
    {
        let mut ps: Vec<Position> = Vec::new();
        let mut cur = start;
        let mut k: u8 = 0;
        while k < size
            invariant
                self.wf(),
                dir.wf(),
                1 <= size <= 8,
                k <= size,
                ps@ == run_seq(start, dir, k as int),
                run_prefix_ok(self.cells@, start, dir, k as int),
                cur == if k == 0 {
                    start
                } else {
                    nth_step(start, dir, (k - 1) as nat)
                },
                k > 0 ==> in_grid(cur),
            decreases size - k,
        {
            let next = if k == 0 {
                cur
            } else {
                Position { x: cur.x + dir.x as i32, y: cur.y + dir.y as i32 }
            };
            assert(next == nth_step(start, dir, k as nat));
            if !self.is_valid_position(&next) {
                proof {
                    lemma_scan_run_error(self.cells@, start, dir, size as int, k as int);
                }
                return Err(PlacementError::OutOfBounds);
            }
            let idx: usize = ((next.y - 1) * 9 + (next.x - 1)) as usize;
            assert(idx == cell_index(next));
            if self.cells[idx].is_occupied() {
                proof {
                    lemma_scan_run_error(self.cells@, start, dir, size as int, k as int);
                }
                return Err(PlacementError::Collision);
            }
            ps.push(next);
            proof {
                assert(ps@ =~= run_seq(start, dir, k as int + 1));
            }
            cur = next;
            k = k + 1;
        }
        Ok(ps)
    }

    /// Mark every listed square occupied. The squares must be distinct grid
    /// squares that are free, so the occupied count grows by exactly the
    /// number of squares and no hit state changes.
    fn mark_cells(&mut self, ps: &Vec<Position>)
        requires
            old(self).wf(),
            forall|k: int|
                0 <= k < ps@.len() ==> in_grid(#[trigger] ps@[k]) && !old(self).cells@[cell_index(
                    ps@[k],
                )].occupied,
            forall|j: int, k: int| 0 <= j < k < ps@.len() ==> ps@[j] != ps@[k],
        ensures
            final(self).wf(),
            final(self).cells@ == mark_positions(old(self).cells@, ps@),
            final(self).ships@ == old(self).ships@,
            final(self).progress_hits == old(self).progress_hits,
            final(self).progress_occupied == old(self).progress_occupied,
            final(self).game_complete == old(self).game_complete,
            count_occupied(final(self).cells@) == count_occupied(old(self).cells@) + ps@.len(),
            (forall|k: int|
                0 <= k < ps@.len() ==> old(self).cells@[cell_index(#[trigger] ps@[k])].hitcount
                    == 0) ==> count_hit(final(self).cells@) == count_hit(old(self).cells@),
    {
        let ghost cells0 = old(self).cells@;
        let mut t: usize = 0;
        while t < ps.len()
            invariant
                *old(self) == (Board { cells: old(self).cells, ..*self }),
                t <= ps@.len(),
                cells_wf(cells0),
                cells_wf(self.cells@),
                cells0.len() == self.cells@.len(),
                forall|k: int|
                    0 <= k < ps@.len() ==> in_grid(#[trigger] ps@[k]) && !cells0[cell_index(
                        ps@[k],
                    )].occupied,
                forall|j: int, k: int| 0 <= j < k < ps@.len() ==> ps@[j] != ps@[k],
                self.cells@ == mark_positions(cells0, ps@.take(t as int)),
                count_occupied(self.cells@) == count_occupied(cells0) + t,
                (forall|k: int|
                    0 <= k < ps@.len() ==> cells0[cell_index(#[trigger] ps@[k])].hitcount == 0)
                    ==> count_hit(self.cells@) == count_hit(cells0),
            decreases ps@.len() - t,
        {
            let p = ps[t];
            let idx: usize = ((p.y - 1) * 9 + (p.x - 1)) as usize;
            assert(idx == cell_index(p));
            assert(self.cells@[idx as int].position == p);
            let ghost prev = self.cells@;
            let mut c = self.cells[idx];
            c.set_occupied();
            self.cells.set(idx, c);
            proof {
                assert(cells0[idx as int].position == p);
                assert(!ps@.take(t as int).contains(p)) by {
                    if ps@.take(t as int).contains(p) {
                        let j = choose|j: int|
                            0 <= j < t && ps@.take(t as int)[j] == p;
                        assert(ps@[j] == ps@[t as int]);
                    }
                }
                assert(prev[idx as int] == cells0[idx as int]);
                lemma_count_update(prev, idx as int, c);
                assert forall|i: int| 0 <= i < prev.len() implies self.cells@[i]
                    == mark_positions(cells0, ps@.take(t as int + 1))[i] by {
                    let tp = ps@.take(t as int);
                    let tp1 = ps@.take(t as int + 1);
                    if i == idx as int {
                        assert(tp1[t as int] == p);
                        assert(tp1.contains(p));
                    } else {
                        assert(self.cells@[i] == prev[i]);
                        if tp1.contains(cells0[i].position) {
                            let j = choose|j: int|
                                0 <= j < tp1.len() && tp1[j] == cells0[i].position;
                            if j == t as int {
                                assert(cells0[i].position == p);
                                assert(cell_index(cells0[i].position) == i);
                            } else {
                                assert(tp[j] == cells0[i].position);
                                assert(tp.contains(cells0[i].position));
                            }
                        } else {
                            if tp.contains(cells0[i].position) {
                                let j = choose|j: int|
                                    0 <= j < tp.len() && tp[j] == cells0[i].position;
                                assert(tp1[j] == cells0[i].position);
                                assert(tp1.contains(cells0[i].position));
                            }
                        }
                    }
                }
                assert(self.cells@ =~= mark_positions(cells0, ps@.take(t as int + 1)));
            }
            t = t + 1;
        }
        proof {
            assert(ps@.take(ps@.len() as int) =~= ps@);
            assert forall|i: int|
                0 <= i < self.ships@.len() implies ship_run_wf(#[trigger] self.ships@[i])
                && ship_on_cells(self.ships@[i], self.cells@) by {
                assert(ship_on_cells(old(self).ships@[i], cells0));
                assert forall|k: int|
                    0 <= k < self.ships@[i].cells@.len() implies self.cells@[cell_index(
                    #[trigger] self.ships@[i].cells@[k],
                )].occupied by {
                    assert(cells0[cell_index(self.ships@[i].cells@[k])].occupied);
                }
            }
        }
    }

    /// Claim the given free run for a ship: validate the whole walk first,
    /// then mark every square, so a failing placement changes nothing.
    pub fn place_ship_manual(
        &mut self,
        ship: &Ship,
        start_position: &Position,
        direction: &Direction,
    ) -> (r: Result<Vec<Position>, PlacementError>)
        requires
            old(self).wf(),
            direction.wf(),
        ensures
            final(self).wf(),
            final(self).ships@ == old(self).ships@,
            final(self).progress_hits == old(self).progress_hits,
            final(self).progress_occupied == old(self).progress_occupied,
            final(self).game_complete == old(self).game_complete,
            r is Ok <==> run_ok(
                old(self).cells@,
                *start_position,
                *direction,
                ship_size(ship.ship_type),
            ),
            r matches Ok(ps) ==> ps@ == run_seq(
                *start_position,
                *direction,
                ship_size(ship.ship_type),
            ) && final(self).cells@ == mark_positions(old(self).cells@, ps@) && count_occupied(
                final(self).cells@,
            ) == count_occupied(old(self).cells@) + ship_size(ship.ship_type),
            (forall|i: int|
                0 <= i < old(self).cells@.len() ==> (#[trigger] old(self).cells@[i]).hitcount == 0)
                ==> count_hit(final(self).cells@) == count_hit(old(self).cells@),
            r matches Err(e) ==> *final(self) == *old(self) && e == run_error(
                old(self).cells@,
                *start_position,
                *direction,
                ship_size(ship.ship_type),
            ) && e != PlacementError::Exhausted,
    {
        let size = ship.ship_type.get_size();
        match self.scan_run(*start_position, *direction, size) {
            Err(e) => Err(e),
            Ok(ps) => {
                proof {
                    lemma_run_positions_free_distinct(
                        self.cells@,
                        *start_position,
                        *direction,
                        size as int,
                    );
                }
                self.mark_cells(&ps);
                Ok(ps)
            },
        }
    }

    /// Place a ship of the given class at random: sample a free start
    /// square and a direction uniformly, try the run, and start over on
    /// failure. The search is bounded, so it either claims a sound free run
    /// or gives up with `Exhausted` leaving the board unchanged.
    pub fn place_ship_auto(&mut self, ship: &Ship) -> (r: Result<Vec<Position>, PlacementError>)
        requires
            old(self).wf(),
        ensures
            final(self).wf(),
            final(self).ships@ == old(self).ships@,
            final(self).progress_hits == old(self).progress_hits,
            final(self).progress_occupied == old(self).progress_occupied,
            final(self).game_complete == old(self).game_complete,
            r matches Ok(ps) ==> ({
                &&& exists|d: Direction|
                    d.wf() && run_ok(old(self).cells@, ps@[0], d, ship_size(ship.ship_type))
                        && ps@ == run_seq(ps@[0], d, ship_size(ship.ship_type))
                &&& final(self).cells@ == mark_positions(old(self).cells@, ps@)
                &&& count_occupied(final(self).cells@) == count_occupied(old(self).cells@)
                    + ship_size(ship.ship_type)
            }),
            (forall|i: int|
                0 <= i < old(self).cells@.len() ==> (#[trigger] old(self).cells@[i]).hitcount == 0)
                ==> count_hit(final(self).cells@) == count_hit(old(self).cells@),
            r is Err ==> r == Err::<Vec<Position>, PlacementError>(PlacementError::Exhausted)
                && *final(self) == *old(self),
    {
        let size = ship.ship_type.get_size();
        let unoccupied = self.get_unoccupied_cells();
        if unoccupied.len() == 0 {
            return Err(PlacementError::Exhausted);
        }
        let mut tries: usize = 0;
        while tries < MAX_PLACEMENT_TRIES
            invariant
                *self == *old(self),
                self.wf(),
                1 <= size <= 8,
                size == ship_size(ship.ship_type),
                unoccupied@.len() > 0,
                forall|j: int|
                    0 <= j < unoccupied@.len() ==> in_grid(#[trigger] unoccupied@[j])
                        && !self.cells@[cell_index(unoccupied@[j])].occupied,
            decreases MAX_PLACEMENT_TRIES - tries,
        {
            let i = crate::rng::random_below(unoccupied.len());
            let start = unoccupied[i];
            let roll = crate::rng::random_below(4);
            let name = if roll == 0 {
                DirectionName::Up
            } else if roll == 1 {
                DirectionName::Down
            } else if roll == 2 {
                DirectionName::Left
            } else {
                DirectionName::Right
            };
            let dir = Direction::new(name);
            match self.scan_run(start, dir, size) {
                Ok(ps) => {
                    proof {
                        lemma_run_positions_free_distinct(self.cells@, start, dir, size as int);
                        assert(ps@[0] == nth_step(start, dir, 0nat));
                    }
                    self.mark_cells(&ps);
                    return Ok(ps);
                },
                Err(_) => {},
            }
            tries = tries + 1;
        }
        Err(PlacementError::Exhausted)
    }

    /// Place one configured ship manually and record it in the fleet.
    fn place_entry(&mut self, t: ShipType, start: Position, dir: Direction) -> (r: Result<
        (),
        PlacementError,
    >)
        requires
            old(self).wf(),
            dir.wf(),
            forall|i: int|
                0 <= i < old(self).ships@.len() ==> (#[trigger] old(self).ships@[i]).ship_type
                    != t,
        ensures
            final(self).wf(),
            r is Err ==> *final(self) == *old(self),
            r matches Err(e) ==> e == run_error(old(self).cells@, start, dir, ship_size(t)) && e
                != PlacementError::Exhausted,
            r is Ok <==> run_ok(old(self).cells@, start, dir, ship_size(t)),
            r is Ok ==> ({
                &&& final(self).cells@ == mark_positions(
                    old(self).cells@,
                    run_seq(start, dir, ship_size(t)),
                )
                &&& final(self).ships@.len() == old(self).ships@.len() + 1
                &&& final(self).ships@.drop_last() == old(self).ships@
                &&& final(self).ships@.last().ship_type == t
                &&& final(self).ships@.last().cells@ == run_seq(start, dir, ship_size(t))
                &&& count_occupied(final(self).cells@) == count_occupied(old(self).cells@)
                    + ship_size(t)
            }),
            forall|i: int|
                0 <= i < old(self).cells@.len() ==> (#[trigger] final(self).cells@[i]).position
                    == old(self).cells@[i].position && final(self).cells@[i].hitcount == old(
                    self,
                ).cells@[i].hitcount && (old(self).cells@[i].occupied
                    ==> final(self).cells@[i].occupied),
            (forall|i: int|
                0 <= i < old(self).cells@.len() ==> (#[trigger] old(self).cells@[i]).hitcount == 0)
                ==> count_hit(final(self).cells@) == count_hit(old(self).cells@),
            final(self).progress_hits == old(self).progress_hits,
            final(self).progress_occupied == old(self).progress_occupied,
            final(self).game_complete == old(self).game_complete,
    {
        let mut ship = Ship::new(t);
        match self.place_ship_manual(&ship, &start, &dir) {
            Err(e) => Err(e),
            Ok(cells_taken) => {
                ship.cells = cells_taken;
                proof {
                    assert(nth_step(start, dir, 0nat) == start);
                    assert(ship.cells@[0] == start);
                    lemma_new_ship_wf(*old(self), self.cells@, ship, dir);
                }
                let ghost mid = *self;
                self.ships.push(ship);
                proof {
                    self.lemma_after_push(*old(self), mid, ship);
                    assert(self.ships@.drop_last() =~= old(self).ships@);
                }
                Ok(())
            },
        }
    }

    /// Place one ship of the given class at random and record it in the
    /// fleet.
    fn place_entry_auto(&mut self, t: ShipType) -> (r: Result<(), PlacementError>)
        requires
            old(self).wf(),
            forall|i: int|
                0 <= i < old(self).ships@.len() ==> (#[trigger] old(self).ships@[i]).ship_type
                    != t,
        ensures
            final(self).wf(),
            r is Err ==> *final(self) == *old(self) && r == Err::<(), PlacementError>(
                PlacementError::Exhausted,
            ),
            r is Ok ==> ({
                &&& final(self).ships@.len() == old(self).ships@.len() + 1
                &&& final(self).ships@.drop_last() == old(self).ships@
                &&& final(self).ships@.last().ship_type == t
                &&& count_occupied(final(self).cells@) == count_occupied(old(self).cells@)
                    + ship_size(t)
                &&& forall|i: int|
                    0 <= i < old(self).cells@.len()
                        ==> ((#[trigger] final(self).cells@[i]).occupied <==> old(
                        self,
                    ).cells@[i].occupied || final(self).ships@.last().cells@.contains(
                        old(self).cells@[i].position,
                    ))
            }),
            forall|i: int|
                0 <= i < old(self).cells@.len() ==> (#[trigger] final(self).cells@[i]).position
                    == old(self).cells@[i].position && final(self).cells@[i].hitcount == old(
                    self,
                ).cells@[i].hitcount && (old(self).cells@[i].occupied
                    ==> final(self).cells@[i].occupied),
            (forall|i: int|
                0 <= i < old(self).cells@.len() ==> (#[trigger] old(self).cells@[i]).hitcount == 0)
                ==> count_hit(final(self).cells@) == count_hit(old(self).cells@),
            final(self).progress_hits == old(self).progress_hits,
            final(self).progress_occupied == old(self).progress_occupied,
            final(self).game_complete == old(self).game_complete,
    {
        let mut ship = Ship::new(t);
        match self.place_ship_auto(&ship) {
            Err(e) => Err(e),
            Ok(cells_taken) => {
                ship.cells = cells_taken;
                proof {
                    let d = choose|d: Direction|
                        d.wf() && run_ok(old(self).cells@, cells_taken@[0], d, ship_size(t))
                            && cells_taken@ == run_seq(cells_taken@[0], d, ship_size(t));
                    lemma_new_ship_wf(*old(self), self.cells@, ship, d);
                }
                let ghost mid = *self;
                self.ships.push(ship);
                proof {
                    self.lemma_after_push(*old(self), mid, ship);
                    assert(self.ships@.drop_last() =~= old(self).ships@);
                }
                Ok(())
            },
        }
    }

    /// Populate a fresh board from a configuration: the full fleet placed
    /// at random, or the configured manual placements in order. A failing
    /// setup leaves the board untouched, so nothing is ever half-placed.
    #[verifier::loop_isolation(false)]
    pub fn setup(&mut self, config: BoardConfig) -> (r: Result<(), PlacementError>)
        requires
            old(self).wf(),
            old(self).is_blank(),
            config matches BoardConfig::Manual(entries) ==> manual_entries_wf(entries@),
        ensures
            final(self).wf(),
            r is Err ==> *final(self) == *old(self),
            final(self).progress_hits == 0,
            final(self).progress_occupied == 0,
            !final(self).game_complete,
            forall|i: int|
                0 <= i < final(self).cells@.len() ==> (#[trigger] final(self).cells@[i]).hitcount
                    == 0,
            config matches BoardConfig::Auto ==> ({
                &&& r is Err ==> r == Err::<(), PlacementError>(PlacementError::Exhausted)
                &&& r is Ok ==> ({
                    &&& final(self).ships@.len() == 4
                    &&& final(self).ships@[0].ship_type == ShipType::C5
                    &&& final(self).ships@[1].ship_type == ShipType::H4
                    &&& final(self).ships@[2].ship_type == ShipType::L3
                    &&& final(self).ships@[3].ship_type == ShipType::A2
                    &&& count_occupied(final(self).cells@) == fleet_size()
                    &&& ships_cover_occupied(*final(self))
                })
            }),
            config matches BoardConfig::Manual(entries) ==> ({
                &&& (r is Ok <==> spec_place_entries(blank_cells(), entries@) is Ok)
                &&& r matches Err(e) ==> spec_place_entries(blank_cells(), entries@) == Err::<
                    Seq<Cell>,
                    PlacementError,
                >(e)
                &&& r is Ok ==> ({
                    &&& Ok::<Seq<Cell>, PlacementError>(final(self).cells@) == spec_place_entries(
                        blank_cells(),
                        entries@,
                    )
                    &&& final(self).ships@.len() == entries@.len()
                    &&& forall|i: int|
                        0 <= i < entries@.len() ==> (#[trigger] final(self).ships@[i]).ship_type
                            == entries@[i].0 && final(self).ships@[i].cells@ == run_seq(
                            entries@[i].1.0,
                            entries@[i].1.1,
                            ship_size(entries@[i].0),
                        )
                })
            }),
    {
        match config {
            BoardConfig::Auto => {
                let mut scratch = Board::new();
                proof {
                    lemma_count_occupied_zero(scratch.cells@);
                    assert(ships_cover_occupied(scratch));
                }
                let ghost s0 = scratch;
                match scratch.place_entry_auto(ShipType::C5) {
                    Err(e) => {
                        return Err(e);
                    },
                    Ok(_) => {},
                }
                proof {
                    lemma_ships_cover_step(s0, scratch);
                }
                let ghost s1 = scratch;
                match scratch.place_entry_auto(ShipType::H4) {
                    Err(e) => {
                        return Err(e);
                    },
                    Ok(_) => {},
                }
                proof {
                    lemma_ships_cover_step(s1, scratch);
                }
                assert(scratch.ships@[0].ship_type == ShipType::C5);
                let ghost s2 = scratch;
                match scratch.place_entry_auto(ShipType::L3) {
                    Err(e) => {
                        return Err(e);
                    },
                    Ok(_) => {},
                }
                proof {
                    lemma_ships_cover_step(s2, scratch);
                }
                let ghost s3 = scratch;
                match scratch.place_entry_auto(ShipType::A2) {
                    Err(e) => {
                        return Err(e);
                    },
                    Ok(_) => {},
                }
                proof {
                    lemma_ships_cover_step(s3, scratch);
                }
                *self = scratch;
                Ok(())
            },
            BoardConfig::Manual(entries) => {
                let mut scratch = Board::new();
                let n = entries.len();
                proof {
                    assert(entries@.skip(0) =~= entries@);
                }
                let mut k: usize = 0;
                while k < n
                    invariant
                        *self == *old(self),
                        old(self).wf(),
                        old(self).is_blank(),
                        n == entries@.len(),
                        k <= n,
                        manual_entries_wf(entries@),
                        scratch.wf(),
                        scratch.progress_hits == 0,
                        scratch.progress_occupied == 0,
                        !scratch.game_complete,
                        forall|i: int|
                            0 <= i < scratch.cells@.len() ==> (
                            #[trigger] scratch.cells@[i]).hitcount == 0,
                        spec_place_entries(blank_cells(), entries@) == spec_place_entries(
                            scratch.cells@,
                            entries@.skip(k as int),
                        ),
                        scratch.ships@.len() == k,
                        forall|i: int|
                            0 <= i < k ==> (#[trigger] scratch.ships@[i]).ship_type
                                == entries@[i].0 && scratch.ships@[i].cells@ == run_seq(
                                entries@[i].1.0,
                                entries@[i].1.1,
                                ship_size(entries@[i].0),
                            ),
                    decreases n - k,
                {
                    let entry = entries[k];
                    proof {
                        let rest = entries@.skip(k as int);
                        assert(rest[0] == entries@[k as int]);
                        assert(rest.drop_first() =~= entries@.skip(k as int + 1));
                        assert forall|i: int|
                            0 <= i < scratch.ships@.len() implies (
                        #[trigger] scratch.ships@[i]).ship_type != entry.0 by {
                            assert(scratch.ships@[i].ship_type == entries@[i].0);
                        }
                    }
                    match scratch.place_entry(entry.0, entry.1.0, entry.1.1) {
                        Err(e) => {
                            return Err(e);
                        },
                        Ok(_) => {},
                    }
                    proof {
                        assert forall|i: int|
                            0 <= i < k + 1 implies (#[trigger] scratch.ships@[i]).ship_type
                            == entries@[i].0 && scratch.ships@[i].cells@ == run_seq(
                            entries@[i].1.0,
                            entries@[i].1.1,
                            ship_size(entries@[i].0),
                        ) by {
                            if i < k {
                                assert(scratch.ships@.drop_last()[i] == scratch.ships@[i]);
                            } else {
                                assert(scratch.ships@[i] == scratch.ships@.last());
                            }
                        }
                    }
                    k = k + 1;
                }
                proof {
                    assert(entries@.skip(n as int) =~= Seq::<
                        (ShipType, (Position, Direction)),
                    >::empty());
                }
                *self = scratch;
                Ok(())
            },
        }
    }

    /// After a sound, freshly marked ship disjoint from the rest of the
    /// fleet is pushed, the board invariant holds again.
    proof fn lemma_after_push(self, pre: Board, mid: Board, ship: Ship)
        requires
            mid.wf(),
            mid.ships@ == pre.ships@,
            self.cells@ == mid.cells@,
            self.ships@ == mid.ships@.push(ship),
            ship_run_wf(ship),
            ship_on_cells(ship, mid.cells@),
            forall|i: int|
                0 <= i < pre.ships@.len() ==> (#[trigger] pre.ships@[i]).ship_type
                    != ship.ship_type,
            forall|i: int, k: int, l: int|
                0 <= i < pre.ships@.len() && 0 <= k < ship.cells@.len() && 0 <= l < (
                #[trigger] pre.ships@[i]).cells@.len() ==> (#[trigger] ship.cells@[k]) != (
                #[trigger] pre.ships@[i].cells@[l]),
        ensures
            self.wf(),
    {
        let n = self.ships@.len();
        assert forall|i: int| 0 <= i < n implies ship_run_wf(#[trigger] self.ships@[i])
            && ship_on_cells(self.ships@[i], self.cells@) by {
            if i < n - 1 {
                assert(self.ships@[i] == mid.ships@[i]);
            } else {
                assert(self.ships@[i] == ship);
            }
        }
        assert forall|i: int, j: int|
            0 <= i < n && 0 <= j < n && i != j implies (#[trigger] self.ships@[i]).ship_type != (
        #[trigger] self.ships@[j]).ship_type by {
            if i < n - 1 && j < n - 1 {
                assert(self.ships@[i] == mid.ships@[i] && self.ships@[j] == mid.ships@[j]);
            } else if i == n - 1 {
                assert(self.ships@[i] == ship && self.ships@[j] == mid.ships@[j]);
            } else {
                assert(self.ships@[i] == mid.ships@[i] && self.ships@[j] == ship);
            }
        }
        assert forall|i: int, j: int, k: int, l: int|
            0 <= i < n && 0 <= j < n && i != j && 0 <= k < self.ships@[i].cells@.len() && 0 <= l
                < self.ships@[j].cells@.len() implies (#[trigger] self.ships@[i].cells@[k]) != (
        #[trigger] self.ships@[j].cells@[l]) by {
            if i < n - 1 && j < n - 1 {
                assert(self.ships@[i] == mid.ships@[i] && self.ships@[j] == mid.ships@[j]);
            } else if i == n - 1 {
                assert(self.ships@[i] == ship && self.ships@[j] == mid.ships@[j]);
            } else {
                assert(self.ships@[i] == mid.ships@[i] && self.ships@[j] == ship);
            }
        }
    }
}

/// The squares of a free run are pairwise distinct grid squares, and none
/// of them is occupied: exactly what marking them requires.
pub proof fn lemma_run_positions_free_distinct(
    cells: Seq<Cell>,
    start: Position,
    dir: Direction,
    size: int,
)
    requires
        dir.wf(),
        1 <= size <= 8,
        run_ok(cells, start, dir, size),
    ensures
        forall|k: int|
            0 <= k < size ==> in_grid(#[trigger] run_seq(start, dir, size)[k]) && !cells[cell_index(
                run_seq(start, dir, size)[k],
            )].occupied,
        forall|j: int, k: int|
            0 <= j < k < size ==> run_seq(start, dir, size)[j] != run_seq(start, dir, size)[k],
{
    assert(nth_step(start, dir, 0nat) == start);
    assert(step_free(cells, nth_step(start, dir, 0nat)));
    assert forall|k: int| 0 <= k < size implies in_grid(
        #[trigger] run_seq(start, dir, size)[k],
    ) && !cells[cell_index(run_seq(start, dir, size)[k])].occupied by {
        assert(step_free(cells, nth_step(start, dir, k as nat)));
    }
    assert forall|j: int, k: int| 0 <= j < k < size implies run_seq(start, dir, size)[j] != run_seq(
        start,
        dir,
        size,
    )[k] by {
        lemma_nth_step_injective(start, dir, j as nat, k as nat);
    }
}

/// A ship just placed on a free run is sound, lies on the freshly marked
/// squares, and cannot touch any ship that was already on the board: its
/// squares were free, theirs were occupied.
pub proof fn lemma_new_ship_wf(pre: Board, post_cells: Seq<Cell>, ship: Ship, dir: Direction)
    requires
        pre.wf(),
        dir.wf(),
        1 <= ship_size(ship.ship_type) <= 8,
        ship.cells@ == run_seq(ship.cells@[0], dir, ship_size(ship.ship_type)),
        run_ok(pre.cells@, ship.cells@[0], dir, ship_size(ship.ship_type)),
        post_cells == mark_positions(pre.cells@, ship.cells@),
    ensures
        ship_run_wf(ship),
        ship_on_cells(ship, post_cells),
        forall|i: int, k: int, l: int|
            0 <= i < pre.ships@.len() && 0 <= k < ship.cells@.len() && 0 <= l < (
            #[trigger] pre.ships@[i]).cells@.len() ==> (#[trigger] ship.cells@[k]) != (
            #[trigger] pre.ships@[i].cells@[l]),
{
    let size = ship_size(ship.ship_type);
    let start = ship.cells@[0];
    lemma_run_positions_free_distinct(pre.cells@, start, dir, size);
    assert(nth_step(start, dir, 0nat) == start);
    assert(ship_run_along(ship, dir));
    assert forall|k: int| 0 <= k < ship.cells@.len() implies post_cells[cell_index(
        #[trigger] ship.cells@[k],
    )].occupied by {
        let idx = cell_index(ship.cells@[k]);
        assert(in_grid(ship.cells@[k]));
        assert(pre.cells@[idx].position == ship.cells@[k]);
        assert(ship.cells@.contains(ship.cells@[k]));
    }
    assert forall|i: int, k: int, l: int|
        0 <= i < pre.ships@.len() && 0 <= k < ship.cells@.len() && 0 <= l < (
        #[trigger] pre.ships@[i]).cells@.len() implies (#[trigger] ship.cells@[k]) != (
    #[trigger] pre.ships@[i].cells@[l]) by {
        assert(ship_on_cells(pre.ships@[i], pre.cells@));
        assert(pre.cells@[cell_index(pre.ships@[i].cells@[l])].occupied);
        assert(!pre.cells@[cell_index(ship.cells@[k])].occupied);
    }
}

/// The store's occupied squares are exactly the fleet's squares.
pub open spec fn ships_cover_occupied(b: Board) -> bool {
    forall|i: int|
        0 <= i < b.cells@.len() ==> ((#[trigger] b.cells@[i]).occupied <==> exists|k: int|
            0 <= k < b.ships@.len() && (#[trigger] b.ships@[k]).cells@.contains(
                b.cells@[i].position,
            ))
}

/// Recording one more ship on exactly the squares it newly occupies keeps
/// the fleet covering the occupied squares.
proof fn lemma_ships_cover_step(pre: Board, post: Board)
    requires
        ships_cover_occupied(pre),
        pre.cells@.len() == post.cells@.len(),
        post.ships@.len() == pre.ships@.len() + 1,
        post.ships@.drop_last() == pre.ships@,
        forall|i: int|
            0 <= i < pre.cells@.len() ==> (#[trigger] post.cells@[i]).position
                == pre.cells@[i].position,
        forall|i: int|
            0 <= i < pre.cells@.len() ==> ((#[trigger] post.cells@[i]).occupied
                <==> pre.cells@[i].occupied || post.ships@.last().cells@.contains(
                pre.cells@[i].position,
            )),
    ensures
        ships_cover_occupied(post),
{
    let n = post.ships@.len();
    assert forall|i: int|
        0 <= i < post.cells@.len() implies ((#[trigger] post.cells@[i]).occupied <==> exists|k: int|
        0 <= k < n && (#[trigger] post.ships@[k]).cells@.contains(post.cells@[i].position)) by {
        let p = post.cells@[i].position;
        if post.cells@[i].occupied {
            if pre.cells@[i].occupied {
                let k = choose|k: int|
                    0 <= k < pre.ships@.len() && (#[trigger] pre.ships@[k]).cells@.contains(p);
                assert(post.ships@[k] == pre.ships@[k]);
                assert(post.ships@[k].cells@.contains(p));
            } else {
                assert(post.ships@[n - 1].cells@.contains(p));
            }
        } else {
            if exists|k: int| 0 <= k < n && (#[trigger] post.ships@[k]).cells@.contains(p) {
                let k = choose|k: int|
                    0 <= k < n && (#[trigger] post.ships@[k]).cells@.contains(p);
                if k < n - 1 {
                    assert(pre.ships@[k] == post.ships@[k]);
                    assert(pre.cells@[i].occupied);
                } else {
                    assert(post.ships@.last().cells@.contains(p));
                }
            }
        }
    }
}

/// How a board is to be set up: automatic randomized placement of the full
/// fleet, or an explicit mapping of ship classes to a start square and a
/// direction, placed in the order listed.
pub enum BoardConfig {
    Auto,
    Manual(Vec<(ShipType, (Position, Direction))>),
}

/// A manual configuration is structurally a mapping: well-formed directions
/// and pairwise distinct ship classes.
pub open spec fn manual_entries_wf(entries: Seq<(ShipType, (Position, Direction))>) -> bool {
    &&& forall|i: int| 0 <= i < entries.len() ==> (#[trigger] entries[i]).1.1.wf()
    &&& forall|i: int, j: int|
        0 <= i < j < entries.len() ==> (#[trigger] entries[i]).0 != (#[trigger] entries[j]).0
}

/// The outcome of placing the configured ships in order on a given store:
/// the store with all the runs marked, or the first placement's error.
pub open spec fn spec_place_entries(
    cells: Seq<Cell>,
    entries: Seq<(ShipType, (Position, Direction))>,
) -> Result<Seq<Cell>, PlacementError>
    decreases entries.len(),
{
    if entries.len() == 0 {
        Ok(cells)
    } else {
        let t = entries[0].0;
        let start = entries[0].1.0;
        let dir = entries[0].1.1;
        if run_ok(cells, start, dir, ship_size(t)) {
            spec_place_entries(
                mark_positions(cells, run_seq(start, dir, ship_size(t))),
                entries.drop_first(),
            )
        } else {
            Err(run_error(cells, start, dir, ship_size(t)))
        }
    }
}

/// A configuration is acceptable when it is `Auto`, or a well-formed manual
/// mapping whose placements all succeed on a fresh board.
pub open spec fn config_ok(c: BoardConfig) -> bool {
    match c {
        BoardConfig::Auto => true,
        BoardConfig::Manual(m) => manual_entries_wf(m@) && spec_place_entries(blank_cells(), m@)
            is Ok,
    }
}

impl BoardConfig {
    /// Check a configuration: `Auto` always passes; a manual mapping passes
    /// exactly when it is well formed and all its placements fit a fresh
    /// board.
    pub fn validate(&self) -> (r: bool)
        ensures
            r == config_ok(*self),
    {
        match self {
            BoardConfig::Auto => true,
            BoardConfig::Manual(manualconf) => Self::validate_manual(manualconf),
        }
    }

    /// Dry-run a manual configuration against a scratch board: structural
    /// checks first, then every placement in order.
    pub fn validate_manual(boardconf: &Vec<(ShipType, (Position, Direction))>) -> (r: bool)
        ensures
            r == (manual_entries_wf(boardconf@) && spec_place_entries(blank_cells(), boardconf@)
                is Ok),
    {
        let n = boardconf.len();
        let mut i: usize = 0;
        while i < n
            invariant
                n == boardconf@.len(),
                i <= n,
                forall|a: int| 0 <= a < i ==> (#[trigger] boardconf@[a]).1.1.wf(),
                forall|a: int, b: int|
                    0 <= a < b < i ==> (#[trigger] boardconf@[a]).0 != (
                    #[trigger] boardconf@[b]).0,
            decreases n - i,
        {
            let entry = boardconf[i];
            let expected = Direction::new(entry.1.1.name);
            if entry.1.1.x != expected.x || entry.1.1.y != expected.y {
                return false;
            }
            let mut j: usize = 0;
            while j < i
                invariant
                    n == boardconf@.len(),
                    j <= i < n,
                    entry == boardconf@[i as int],
                    forall|a: int| 0 <= a < j ==> (#[trigger] boardconf@[a]).0 != entry.0,
                decreases i - j,
            {
                let earlier = boardconf[j];
                if earlier.0 == entry.0 {
                    return false;
                }
                j = j + 1;
            }
            i = i + 1;
        }
        let mut board = Board::new();
        proof {
            assert(boardconf@.skip(0) =~= boardconf@);
        }
        let mut k: usize = 0;
        while k < n
            invariant
                n == boardconf@.len(),
                k <= n,
                manual_entries_wf(boardconf@),
                board.wf(),
                spec_place_entries(blank_cells(), boardconf@) == spec_place_entries(
                    board.cells@,
                    boardconf@.skip(k as int),
                ),
            decreases n - k,
        {
            let entry = boardconf[k];
            let ghost pre = board.cells@;
            let ship = Ship::new(entry.0);
            let placed = board.place_ship_manual(&ship, &entry.1.0, &entry.1.1);
            proof {
                let rest = boardconf@.skip(k as int);
                assert(rest[0] == boardconf@[k as int]);
                assert(rest.drop_first() =~= boardconf@.skip(k as int + 1));
            }
            match placed {
                Err(_) => {
                    return false;
                },
                Ok(_) => {},
            }
            k = k + 1;
        }
        proof {
            assert(boardconf@.skip(n as int) =~= Seq::<(ShipType, (Position, Direction))>::empty());
        }
        true
    }
}

/// At the first square of the walk that is not free, the run as a whole
/// fails, and `run_error` names that square's failure.
pub proof fn lemma_scan_run_error(
    cells: Seq<Cell>,
    start: Position,
    dir: Direction,
    size: int,
    k: int,
)
    requires
        0 <= k < size,
        run_prefix_ok(cells, start, dir, k),
        !step_free(cells, nth_step(start, dir, k as nat)),
    ensures
        !run_ok(cells, start, dir, size),
        run_error(cells, start, dir, size) == if in_grid(nth_step(start, dir, k as nat)) {
            PlacementError::Collision
        } else {
            PlacementError::OutOfBounds
        },
{
    let kk = choose|kk: int|
        0 <= kk < size && run_prefix_ok(cells, start, dir, kk) && !step_free(
            cells,
            nth_step(start, dir, kk as nat),
        );
    assert(0 <= kk < size && run_prefix_ok(cells, start, dir, kk) && !step_free(
        cells,
        nth_step(start, dir, kk as nat),
    ));
    if kk < k {
        assert(step_free(cells, nth_step(start, dir, kk as nat)));
    } else if kk > k {
        assert(step_free(cells, nth_step(start, dir, k as nat)));
    }
}

/// The character a square renders as: `'0'` free, `'1'` ship not yet hit,
/// `'X'` ship hit.
pub open spec fn render_char(c: Cell) -> char {
    if c.occupied {
        if c.hitcount > 0 {
            'X'
        } else {
            '1'
        }
    } else {
        '0'
    }
}

/// The cell store after a shot lands on grid square `pos`: that square's
/// hit counter grows by one and nothing else changes.
pub open spec fn spec_hit_cells(cells: Seq<Cell>, pos: Position) -> Seq<Cell> {
    let i = cell_index(pos);
    cells.update(i, Cell { hitcount: (cells[i].hitcount + 1) as usize, ..cells[i] })
}

/// Whether a shot at grid square `pos` succeeds: the square is occupied and
/// had never been hit before.
pub open spec fn spec_hit_result(cells: Seq<Cell>, pos: Position) -> bool {
    in_grid(pos) && cells[cell_index(pos)].occupied && cells[cell_index(pos)].hitcount == 0
}

/// The completion flag after a refresh over `cells`, given the flag's prior
/// value: completion is reached when some squares are occupied and every one
/// of them has been hit, and is never left again.
pub open spec fn spec_complete_after(cells: Seq<Cell>, was: bool) -> bool {
    was || (count_occupied(cells) > 0 && count_hit(cells) == count_occupied(cells))
}

/// How many characters of one rendered column are not `'0'`.
pub open spec fn count_col_ship_chars(col: Seq<char>) -> int
    decreases col.len(),
{
    if col.len() == 0 {
        0
    } else {
        count_col_ship_chars(col.drop_last()) + if col.last() != '0' {
            1int
        } else {
            0int
        }
    }
}

/// How many characters of the rendered grid are not `'0'`.
pub open spec fn count_ship_chars(g: Seq<Seq<char>>) -> int
    decreases g.len(),
{
    if g.len() == 0 {
        0
    } else {
        count_ship_chars(g.drop_last()) + count_col_ship_chars(g.last())
    }
}

/// How many of the first `ny` squares of column `x` are occupied.
spec fn col_occupied(s: Seq<Cell>, x: int, ny: int) -> int
    decreases ny,
{
    if ny <= 0 {
        0
    } else {
        col_occupied(s, x, ny - 1) + if s[(ny - 1) * 9 + x].occupied {
            1int
        } else {
            0int
        }
    }
}

/// The occupied squares of the first `nx` columns, each over its first `ny`
/// squares.
spec fn cols_occupied(s: Seq<Cell>, nx: int, ny: int) -> int
    decreases nx,
{
    if nx <= 0 {
        0
    } else {
        cols_occupied(s, nx - 1, ny) + col_occupied(s, nx - 1, ny)
    }
}

/// How many of the first `nx` squares of row `y` are occupied.
spec fn row_occupied(s: Seq<Cell>, y: int, nx: int) -> int
    decreases nx,
{
    if nx <= 0 {
        0
    } else {
        row_occupied(s, y, nx - 1) + if s[y * 9 + (nx - 1)].occupied {
            1int
        } else {
            0int
        }
    }
}

/// With no rows taken, every column count is zero.
proof fn lemma_cols_occupied_zero(s: Seq<Cell>, nx: int)
    ensures
        cols_occupied(s, nx, 0) == 0,
    decreases nx,
{
    if nx > 0 {
        lemma_cols_occupied_zero(s, nx - 1);
    }
}

/// Taking one more row adds that row's occupied squares to every column.
proof fn lemma_cols_occupied_step(s: Seq<Cell>, nx: int, y: int)
    requires
        0 <= y,
    ensures
        cols_occupied(s, nx, y + 1) == cols_occupied(s, nx, y) + row_occupied(s, y, nx),
    decreases nx,
{
    if nx > 0 {
        lemma_cols_occupied_step(s, nx - 1, y);
    }
}

/// The flat count over a row-major prefix grows row by row.
proof fn lemma_row_occupied_take(s: Seq<Cell>, y: int, nx: int)
    requires
        0 <= y,
        0 <= nx,
        y * 9 + nx <= s.len(),
    ensures
        count_occupied(s.take(y * 9 + nx)) == count_occupied(s.take(y * 9)) + row_occupied(
            s,
            y,
            nx,
        ),
    decreases nx,
{
    if nx > 0 {
        lemma_row_occupied_take(s, y, nx - 1);
        lemma_count_take_succ(s, y * 9 + nx - 1);
    }
}

/// Summing the columns over the first `y` rows counts exactly the flat
/// row-major prefix of `y` rows.
proof fn lemma_cols_occupied_upto(s: Seq<Cell>, y: int)
    requires
        0 <= y,
        y * 9 <= s.len(),
    ensures
        cols_occupied(s, 9, y) == count_occupied(s.take(y * 9)),
    decreases y,
{
    if y == 0 {
        lemma_cols_occupied_zero(s, 9);
        assert(s.take(0) =~= Seq::<Cell>::empty());
    } else {
        lemma_cols_occupied_upto(s, y - 1);
        lemma_cols_occupied_step(s, 9, y - 1);
        lemma_row_occupied_take(s, y - 1, 9);
    }
}

/// Column by column, the squares of the whole grid are counted exactly
/// once: the column sums equal the flat occupied count.
proof fn lemma_grid_occupied_total(s: Seq<Cell>)
    requires
        s.len() == GRID_CELLS,
    ensures
        cols_occupied(s, 9, 9) == count_occupied(s),
{
    lemma_cols_occupied_upto(s, 9);
    assert(s.take(81) =~= s);
}

/// On a board no shot has landed on, a rendered column shows exactly its
/// occupied squares as non-`'0'`.
proof fn lemma_col_chars(col: Seq<char>, s: Seq<Cell>, x: int, ny: int)
    requires
        s.len() == GRID_CELLS,
        0 <= x < 9,
        0 <= ny <= 9,
        col.len() == 9,
        forall|y: int| 0 <= y < 9 ==> #[trigger] col[y] == render_char(s[y * 9 + x]),
    ensures
        count_col_ship_chars(col.take(ny)) == col_occupied(s, x, ny),
    decreases ny,
{
    if ny > 0 {
        lemma_col_chars(col, s, x, ny - 1);
        assert(col.take(ny).drop_last() =~= col.take(ny - 1));
        assert(col.take(ny).last() == col[ny - 1]);
    }
}

/// On a board no shot has landed on, the rendered grid shows exactly the
/// occupied squares as non-`'0'`.
proof fn lemma_grid_chars(g: Seq<Seq<char>>, s: Seq<Cell>, nx: int)
    requires
        s.len() == GRID_CELLS,
        0 <= nx <= 9,
        g.len() == 9,
        forall|x: int| 0 <= x < 9 ==> (#[trigger] g[x]).len() == 9,
        forall|x: int, y: int|
            0 <= x < 9 && 0 <= y < 9 ==> #[trigger] g[x][y] == render_char(s[y * 9 + x]),
    ensures
        count_ship_chars(g.take(nx)) == cols_occupied(s, nx, 9),
    decreases nx,
{
    if nx > 0 {
        lemma_grid_chars(g, s, nx - 1);
        assert(g.take(nx).drop_last() =~= g.take(nx - 1));
        assert(g.take(nx).last() == g[nx - 1]);
        lemma_col_chars(g[nx - 1], s, nx - 1, 9);
        assert(g[nx - 1].take(9) =~= g[nx - 1]);
    }
}

/// On a board no shot has landed on, the rendered grid shows exactly as
/// many non-`'0'` characters as there are occupied squares, and each of
/// them is `'1'`. Together with `setup`, a freshly set up full fleet
/// renders as exactly fourteen `'1'` characters.
pub proof fn lemma_fresh_render_counts(b: Board, g: Seq<Seq<char>>)
    requires
        b.wf(),
        forall|i: int| 0 <= i < b.cells@.len() ==> (#[trigger] b.cells@[i]).hitcount == 0,
        g.len() == 9,
        forall|x: int| 0 <= x < 9 ==> (#[trigger] g[x]).len() == 9,
        forall|x: int, y: int|
            0 <= x < 9 && 0 <= y < 9 ==> #[trigger] g[x][y] == render_char(b.cells@[y * 9 + x]),
    ensures
        count_ship_chars(g) == count_occupied(b.cells@),
        forall|x: int, y: int|
            0 <= x < 9 && 0 <= y < 9 ==> (#[trigger] g[x][y] == '1' <==> b.cells@[y * 9
                + x].occupied),
        forall|x: int, y: int| 0 <= x < 9 && 0 <= y < 9 ==> (g[x][y] == '0' || #[trigger] g[x][y]
            == '1'),
{
    lemma_grid_chars(g, b.cells@, 9);
    assert(g.take(9) =~= g);
    lemma_grid_occupied_total(b.cells@);
}

/// A first shot on an occupied square succeeds, and a second shot on the
/// same square always misses.
pub proof fn lemma_second_hit_misses(cells: Seq<Cell>, pos: Position)
    requires
        cells_wf(cells),
        in_grid(pos),
        cells[cell_index(pos)].hitcount < usize::MAX,
    ensures
        spec_hit_result(cells, pos) == (cells[cell_index(pos)].occupied && cells[cell_index(
            pos,
        )].hitcount == 0),
        !spec_hit_result(spec_hit_cells(cells, pos), pos),
{
}

/// Once every occupied square has been hit at least once and any square is
/// occupied at all, a refresh reports the game complete: the progress ratio
/// is exactly one.
pub proof fn lemma_full_coverage_completes(cells: Seq<Cell>, was: bool)
    requires
        count_occupied(cells) > 0,
        forall|i: int|
            0 <= i < cells.len() ==> ((#[trigger] cells[i]).occupied ==> cells[i].hitcount > 0),
    ensures
        spec_complete_after(cells, was),
{
    lemma_all_hit_full_progress(cells);
}

} // verus!
