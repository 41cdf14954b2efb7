//! The fixed fleet: four ship classes with fixed lengths, and a placed
//! ship's record of the squares it occupies.

use vstd::prelude::*;

use crate::geometry::Position;

verus! {

/// The four ship classes of the fleet, one ship of each per board.
#[derive(PartialEq, Eq, Structural, Clone, Copy, Debug, Hash)]
pub enum ShipType {
    /// Canberra-class landing helicopter dock, length 5.
    C5,
    /// Hobart-class destroyer, length 4.
    H4,
    /// Leeuwin-class survey vessel, length 3.
    L3,
    /// Armidale-class patrol boat, length 2.
    A2,
}

/// The number of squares a ship of the given class occupies.
pub open spec fn ship_size(t: ShipType) -> int {
    match t {
        ShipType::C5 => 5,
        ShipType::H4 => 4,
        ShipType::L3 => 3,
        ShipType::A2 => 2,
    }
}

/// The sum of all four ship lengths: how many squares a full fleet occupies.
pub open spec fn fleet_size() -> int {
    ship_size(ShipType::C5) + ship_size(ShipType::H4) + ship_size(ShipType::L3) + ship_size(
        ShipType::A2,
    )
}

impl ShipType {
    pub fn get_size(&self) -> (n: u8)
        ensures
            n == ship_size(*self),
    {
        match self {
            ShipType::A2 => 2,
            ShipType::L3 => 3,
            ShipType::H4 => 4,
            ShipType::C5 => 5,
        }
    }
}

/// A ship: its class and, once placed, the ordered run of squares it holds.
#[derive(Debug)]
pub struct Ship {
    pub ship_type: ShipType,
    pub cells: Vec<Position>,
}

impl Ship {
    pub fn new(ship_type: ShipType) -> (s: Ship)
        ensures
            s.ship_type == ship_type,
            s.cells@ == Seq::<Position>::empty(),
    {
        Ship { ship_type, cells: Vec::new() }
    }
}

} // verus!
