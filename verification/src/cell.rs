use vstd::prelude::*;

verus! {

/// Identifier of the unit occupying a cell.
#[derive(Clone, Copy, PartialEq, Eq, Structural, Debug)]
pub struct ShipId(pub usize);

/// A fixed structure built on a cell: the primary base or a secondary base.
/// Either kind permanently blocks new occupation claims.
#[derive(Clone, Copy, PartialEq, Eq, Structural, Debug)]
pub enum Structure {
    Shipyard,
    Dropoff,
}

/// One cell of the grid. Its position is implicit: the grid owns exactly one
/// cell per normalized coordinate pair.
#[derive(Clone, Copy, PartialEq, Eq, Structural, Debug)]
pub struct MapCell {
    /// Resource amount held by the cell.
    pub halite: u32,
    /// Unit that has claimed this cell for the current turn, if any.
    pub ship: Option<ShipId>,
    /// Structure built on the cell, if any.
    pub structure: Option<Structure>,
}

impl MapCell {
    /// A cell is occupied when a unit has claimed it or a base stands on it.
    pub open spec fn spec_is_occupied(self) -> bool {
        self.ship.is_some() || self.structure.is_some()
    }

    pub fn is_occupied(&self) -> (b: bool)
        ensures
            b == self.spec_is_occupied(),
    {
        self.ship.is_some() || self.structure.is_some()
    }

    pub fn has_structure(&self) -> (b: bool)
        ensures
            b == self.structure.is_some(),
    {
        self.structure.is_some()
    }

    /// Reserve the cell for the given unit for the rest of the turn.
    pub fn mark_unsafe(&mut self, ship_id: ShipId)
        ensures
            *final(self) == (MapCell { ship: Some(ship_id), ..*old(self) }),
    {
        self.ship = Some(ship_id);
    }
}

} // verus!
