//! One grid square's state: its position, whether a ship occupies it, and
//! how many shots have landed on it.

use vstd::prelude::*;

use crate::geometry::Position;

verus! {

/// The state of one grid square. `occupied` only ever moves from `false` to
/// `true`, and `hitcount` only ever grows.
#[derive(PartialEq, Eq, Structural, Clone, Copy, Debug, Hash)]
pub struct Cell {
    pub position: Position,
    pub occupied: bool,
    pub hitcount: usize,
}

impl Cell {
    pub fn new(pos: Position) -> (c: Cell)
        ensures
            c == (Cell { position: pos, occupied: false, hitcount: 0 }),
    {
        Cell { position: pos, occupied: false, hitcount: 0 }
    }

    pub fn is_occupied(&self) -> (r: bool)
        ensures
            r == self.occupied,
    {
        self.occupied
    }

    pub fn set_occupied(&mut self)
        ensures
            *final(self) == (Cell { occupied: true, ..*old(self) }),
    {
        self.occupied = true;
    }

    /// Record one shot landing on this square, occupied or not.
    pub fn hit(&mut self)
        requires
            old(self).hitcount < usize::MAX,
        ensures
            *final(self) == (Cell {
                hitcount: (old(self).hitcount + 1) as usize,
                ..*old(self)
            }),
    {
        self.hitcount = self.hitcount + 1;
    }

    pub fn get_hitcount(&self) -> (n: usize)
        ensures
            n == self.hitcount,
    {
        self.hitcount
    }

    pub fn was_hit_successfully(&self) -> (r: bool)
        ensures
            r == (self.occupied && self.hitcount > 0),
    {
        self.occupied && self.hitcount > 0
    }
}

} // verus!
