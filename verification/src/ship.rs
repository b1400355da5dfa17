use vstd::prelude::*;

use crate::cell::ShipId;
use crate::position::Position;

verus! {

/// Anything that stands somewhere on the grid.
pub trait Entity {
    spec fn spec_position(&self) -> Position;

    fn position(&self) -> (p: Position)
        ensures
            p == self.spec_position(),
    ;
}

/// A unit as far as the grid needs to know it: its identifier and where it is.
#[derive(Clone, Copy, PartialEq, Eq, Structural, Debug)]
pub struct Ship {
    pub id: ShipId,
    pub position: Position,
}

impl Entity for Ship {
    open spec fn spec_position(&self) -> Position {
        self.position
    }

    fn position(&self) -> (p: Position) {
        self.position
    }
}

} // verus!
