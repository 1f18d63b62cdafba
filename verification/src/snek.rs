//! One snake: its cells, its direction, and the moves it may make.

use vstd::prelude::*;
use crate::shared::{Coord, Direction, SnekId};

verus! {

/// A player's grid entity: one head cell plus an ordered body of trailing
/// cells in head-to-tail order (`body[0]` is adjacent to the head).
pub struct Snek {
    pub id: SnekId,
    pub head: Coord,
    pub body: Vec<Coord>,
    pub previous_direction: Direction,
    pub direction: Direction,
}

/// Mathematical model of a `Snek`: the body as a sequence.
pub struct SnekView {
    pub id: SnekId,
    pub head: Coord,
    pub body: Seq<Coord>,
    pub previous_direction: Direction,
    pub direction: Direction,
}

impl View for Snek {
    type V = SnekView;

    open spec fn view(&self) -> SnekView {
        SnekView {
            id: self.id,
            head: self.head,
            body: self.body@,
            previous_direction: self.previous_direction,
            direction: self.direction,
        }
    }
}

impl SnekView {
    /// Every cell the snake occupies: the head first, then the body.
    pub open spec fn cells(self) -> Seq<Coord> {
        seq![self.head] + self.body
    }

    /// The cell the head would move to next, one step along the current
    /// direction (unbounded integers, so the edge of `i32` needs no care).
    pub open spec fn new_head(self) -> (int, int) {
        match self.direction {
            Direction::North => (self.head.0 as int, self.head.1 - 1),
            Direction::South => (self.head.0 as int, self.head.1 + 1),
            Direction::East => (self.head.0 + 1, self.head.1 as int),
            Direction::West => (self.head.0 - 1, self.head.1 as int),
            Direction::Invalid => (self.head.0 as int, self.head.1 as int),
        }
    }

    /// The snake after one non-growing, non-colliding step: the head moves
    /// one cell, the old head becomes the first body cell, the tail cell is
    /// given up, so the occupied length is constant.
    pub open spec fn advanced(self) -> SnekView {
        SnekView {
            head: (self.new_head().0 as i32, self.new_head().1 as i32),
            body: seq![self.head] + (if self.body.len() == 0 {
                self.body
            } else {
                self.body.drop_last()
            }),
            ..self
        }
    }
}

/// The direction exactly opposite to `d`; `Invalid` has none and maps to
/// itself.
pub open spec fn spec_opposite(d: Direction) -> Direction {
    match d {
        Direction::North => Direction::South,
        Direction::South => Direction::North,
        Direction::East => Direction::West,
        Direction::West => Direction::East,
        Direction::Invalid => Direction::Invalid,
    }
}

/// The direction a snake ends up with when `requested` is asked for while it
/// currently travels `current`: a reversal or an `Invalid` request is
/// ignored, anything else (the same direction included) is taken.
pub open spec fn spec_set_direction(current: Direction, requested: Direction) -> Direction {
    if requested == Direction::Invalid || current == spec_opposite(requested) {
        current
    } else {
        requested
    }
}

impl Snek {
    /// The cell the head would move to next, per the current direction.
    pub fn get_new_head_coord(&self) -> (r: Coord)
        requires
            i32::MIN < self.head.0 < i32::MAX,
            i32::MIN < self.head.1 < i32::MAX,
        ensures
            r.0 == self@.new_head().0,
            r.1 == self@.new_head().1,
    {
        match self.direction {
            Direction::North => (self.head.0, self.head.1 - 1),
            Direction::South => (self.head.0, self.head.1 + 1),
            Direction::East => (self.head.0 + 1, self.head.1),
            Direction::West => (self.head.0 - 1, self.head.1),
            Direction::Invalid => (self.head.0, self.head.1),
        }
    }

    /// Request a new travel direction. A request for the exact opposite of
    /// the current direction is ignored (it would be an instant
    /// self-collision by reversal), as is an `Invalid` request; a request
    /// equal to the current direction is a harmless no-op.
    pub fn set_direction(&mut self, direction: Direction)
        ensures
            final(self).direction == spec_set_direction(old(self).direction, direction),
            final(self).id == old(self).id,
            final(self).head == old(self).head,
            final(self).body@ == old(self).body@,
            final(self).previous_direction == old(self).previous_direction,
    {
        match direction {
            Direction::North => if self.direction == Direction::South {
                return ;
            },
            Direction::South => if self.direction == Direction::North {
                return ;
            },
            Direction::East => if self.direction == Direction::West {
                return ;
            },
            Direction::West => if self.direction == Direction::East {
                return ;
            },
            Direction::Invalid => {
                return ;
            },
        };
        self.direction = direction;
    }

    /// Move the snake one step along its current direction: the old head
    /// becomes the first body cell and, unless it is growing, the tail cell
    /// is given up.
    pub fn advance(&mut self, should_grow: bool)
        requires
            i32::MIN < old(self).head.0 < i32::MAX,
            i32::MIN < old(self).head.1 < i32::MAX,
        ensures
            final(self).id == old(self).id,
            final(self).direction == old(self).direction,
            final(self).previous_direction == old(self).previous_direction,
            final(self).head.0 == old(self)@.new_head().0,
            final(self).head.1 == old(self)@.new_head().1,
            final(self).body@ == seq![old(self).head] + (if should_grow || old(self).body@.len()
                == 0 {
                old(self).body@
            } else {
                old(self).body@.drop_last()
            }),
    {
        if !should_grow {
            self.body.pop();
        }
        self.body.insert(0, self.head);
        self.head = self.get_new_head_coord();
        proof {
            assert(self.body@ =~= seq![old(self).head] + (if should_grow || old(self).body@.len()
                == 0 {
                old(self).body@
            } else {
                old(self).body@.drop_last()
            }));
        }
    }
}

} // verus!
