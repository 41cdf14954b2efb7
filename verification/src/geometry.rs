//! Grid geometry: 1-based coordinates on the fixed 9 x 9 grid and the four
//! unit step directions.

use vstd::prelude::*;

verus! {

/// Number of columns of the grid; positions have `1 <= x <= GRID_COLS`.
pub const GRID_COLS: i32 = 9;

/// Number of rows of the grid; positions have `1 <= y <= GRID_ROWS`.
pub const GRID_ROWS: i32 = 9;

/// A 1-based grid coordinate pair. A `Position` is plain data: it may lie
/// outside the grid; `in_grid` tells whether it is an actual board square.
#[derive(PartialEq, Eq, Structural, Clone, Copy, Debug, Hash)]
pub struct Position {
    pub x: i32,
    pub y: i32,
}

/// True iff `p` names a square of the 9 x 9 grid.
pub open spec fn in_grid(p: Position) -> bool {
    1 <= p.x <= GRID_COLS && 1 <= p.y <= GRID_ROWS
}

impl Position {
    pub fn new(x: i32, y: i32) -> (p: Position)
        ensures
            p == (Position { x, y }),
    {
        Position { x, y }
    }
}

/// The name of one of the four step directions.
#[derive(PartialEq, Eq, Structural, Clone, Copy, Debug, Hash)]
pub enum DirectionName {
    Up,
    Down,
    Left,
    Right,
}

/// A direction together with its unit step vector. The vector is redundant
/// data determined by the name; `wf` states that determination.
#[derive(PartialEq, Eq, Structural, Clone, Copy, Debug, Hash)]
pub struct Direction {
    pub name: DirectionName,
    pub x: i8,
    pub y: i8,
}

/// The unit step vector `(x, y)` belonging to a direction name: up and down
/// move along rows (y), left and right along columns (x).
pub open spec fn step_vector(name: DirectionName) -> (i8, i8) {
    match name {
        DirectionName::Up => (0 as i8, -1 as i8),
        DirectionName::Down => (0 as i8, 1 as i8),
        DirectionName::Left => (-1 as i8, 0 as i8),
        DirectionName::Right => (1 as i8, 0 as i8),
    }
}

impl Direction {
    /// A `Direction` is well formed when its vector is the one its name maps to.
    pub open spec fn wf(self) -> bool {
        (self.x, self.y) == step_vector(self.name)
    }

    pub fn new(dir: DirectionName) -> (d: Direction)
        ensures
            d.wf(),
            d.name == dir,
    {
        let (x, y): (i8, i8) = match dir {
            DirectionName::Up => (0, -1),
            DirectionName::Down => (0, 1),
            DirectionName::Left => (-1, 0),
            DirectionName::Right => (1, 0),
        };
        Direction { name: dir, x, y }
    }

    pub fn get_coord(&self) -> (c: [i8; 2])
        ensures
            c@ == seq![self.x, self.y],
    {
        [self.x, self.y]
    }

    pub fn get_name(&self) -> (n: &DirectionName)
        ensures
            n == self.name,
    {
        &self.name
    }
}

/// The square one step from `p` in direction `d`: pure coordinate
/// arithmetic, with no bounds check.
pub open spec fn spec_step(p: Position, d: Direction) -> Position {
    Position { x: (p.x + d.x) as i32, y: (p.y + d.y) as i32 }
}

/// The square `k` steps from `p` in direction `d`.
pub open spec fn nth_step(p: Position, d: Direction, k: nat) -> Position
    decreases k,
{
    if k == 0 {
        p
    } else {
        spec_step(nth_step(p, d, (k - 1) as nat), d)
    }
}

/// Distinct step counts along one direction reach distinct squares: a run of
/// a ship never folds back onto itself.
pub proof fn lemma_nth_step_injective(p: Position, d: Direction, j: nat, k: nat)
    requires
        d.wf(),
        in_grid(p),
        j < k <= 8,
    ensures
        nth_step(p, d, j) != nth_step(p, d, k),
{
    lemma_nth_step_coords(p, d, j);
    lemma_nth_step_coords(p, d, k);
    let dx = d.x as int;
    let dy = d.y as int;
    assert(dx == 1 || dx == -1 || dy == 1 || dy == -1);
    assert(j * dx != k * dx || j * dy != k * dy) by (nonlinear_arith)
        requires
            j < k,
            dx == 1 || dx == -1 || dy == 1 || dy == -1,
    ;
}

/// Along a well-formed direction, and within a few steps of the grid, the
/// coordinates after `k` steps are the start coordinates shifted by `k`
/// along the direction's axis (no wrap-around can occur so close to the grid).
pub proof fn lemma_nth_step_coords(p: Position, d: Direction, k: nat)
    requires
        d.wf(),
        in_grid(p),
        k <= 8,
    ensures
        nth_step(p, d, k).x == p.x + k * (d.x as int),
        nth_step(p, d, k).y == p.y + k * (d.y as int),
        p.x - 8 <= nth_step(p, d, k).x <= p.x + 8,
        p.y - 8 <= nth_step(p, d, k).y <= p.y + 8,
    decreases k,
{
    let dx = d.x as int;
    let dy = d.y as int;
    assert(-1 <= dx <= 1 && -1 <= dy <= 1);
    if k == 0 {
        assert(k * dx == 0 && k * dy == 0) by (nonlinear_arith)
            requires
                k == 0,
        ;
    } else {
        lemma_nth_step_coords(p, d, (k - 1) as nat);
        assert(k * dx == (k - 1) * dx + dx && -(k as int) <= k * dx <= k as int)
            by (nonlinear_arith)
            requires
                1 <= k,
                -1 <= dx <= 1,
        ;
        assert(k * dy == (k - 1) * dy + dy && -(k as int) <= k * dy <= k as int)
            by (nonlinear_arith)
            requires
                1 <= k,
                -1 <= dy <= 1,
        ;
    }
}

} // verus!
