//! One cell of the grid.

use vstd::prelude::*;

verus! {

/// The reference that refers to no tile: a missing neighbour, a missing parent.
pub const NO_TILE: i32 = -1;

/// The cost of one step along a neighbour reference. The heuristic counts in
/// the same unit.
pub const STEP_COST: i64 = 10;

/// A cell of the grid, together with what the last search wrote into it.
#[derive(Clone, Copy, Debug, PartialEq, Eq)]
pub struct Tile {
    /// Position of the tile in the row-major tile array.
    pub node_id: usize,
    /// Column of the tile.
    pub x_id: i32,
    /// Row of the tile.
    pub y_id: i32,
    /// Whether the search is kept from stepping onto this tile.
    pub is_wall: bool,
    /// The tile one row up, or a negative number.
    pub top: i32,
    /// The tile one row down, or a negative number.
    pub bottom: i32,
    /// The tile one column to the left, or a negative number.
    pub left: i32,
    /// The tile one column to the right, or a negative number.
    pub right: i32,
    /// Cost of the way found from the start to this tile.
    pub g: i64,
    /// Estimate of the cost from this tile to the goal.
    pub h: i64,
    /// Score by which the search picks its next tile: `g + h`.
    pub f: i64,
    /// The tile this one was reached from, or a negative number.
    pub parent_id: i32,
}

/// The distance between two coordinates.
pub open spec fn span(a: i32, b: i32) -> int {
    if a <= b {
        b - a
    } else {
        a - b
    }
}

impl Tile {
    /// The estimate that a tile at this place gets for a goal at `goal`'s place:
    /// one step's cost for each column and each row between them.
    pub open spec fn estimate(self, goal: Tile) -> int {
        STEP_COST * (span(self.x_id, goal.x_id) + span(self.y_id, goal.y_id))
    }

    /// This tile as a search towards `goal` finds it before its first step.
    pub open spec fn cleared(self, goal: Tile) -> Tile {
        Tile {
            g: 0,
            h: self.estimate(goal) as i64,
            f: self.estimate(goal) as i64,
            parent_id: NO_TILE,
            ..self
        }
    }

    /// This tile once it has been reached from tile `parent`, whose way from the
    /// start costs `parent_g`.
    pub open spec fn reached_from(self, parent: i32, parent_g: i64) -> Tile {
        Tile {
            g: (parent_g + STEP_COST) as i64,
            f: (parent_g + STEP_COST + self.h) as i64,
            parent_id: parent,
            ..self
        }
    }

    /// Whether one of the four neighbour references of the tile leads to tile
    /// `to`.
    pub open spec fn refers_to(self, to: int) -> bool {
        &&& to >= 0
        &&& (self.top == to || self.bottom == to || self.left == to || self.right == to)
    }

    /// Whether two tiles agree in everything that a search leaves alone.
    pub open spec fn same_cell(self, other: Tile) -> bool {
        &&& self.node_id == other.node_id
        &&& self.x_id == other.x_id
        &&& self.y_id == other.y_id
        &&& self.is_wall == other.is_wall
        &&& self.top == other.top
        &&& self.bottom == other.bottom
        &&& self.left == other.left
        &&& self.right == other.right
    }

    /// Whether each neighbour reference of the tile is below `count`, so that it
    /// is the index of one of `count` tiles or negative.
    pub open spec fn links_below(self, count: nat) -> bool {
        &&& self.top < count
        &&& self.bottom < count
        &&& self.left < count
        &&& self.right < count
    }

    /// A passable tile at column `x_id` and row `y_id`, or a wall there, that
    /// refers to no other tile and has no scores yet.
    pub fn new(x_id: i32, y_id: i32, node_id: usize, is_wall: bool) -> (t: Tile)
        ensures
            t == (Tile {
                node_id,
                x_id,
                y_id,
                is_wall,
                top: NO_TILE,
                bottom: NO_TILE,
                left: NO_TILE,
                right: NO_TILE,
                g: 0,
                h: 0,
                f: 0,
                parent_id: NO_TILE,
            }),
    {
        Tile {
            node_id,
            x_id,
            y_id,
            is_wall,
            top: NO_TILE,
            bottom: NO_TILE,
            left: NO_TILE,
            right: NO_TILE,
            g: 0,
            h: 0,
            f: 0,
            parent_id: NO_TILE,
        }
    }

    /// The passable tile at the origin.
    pub fn default() -> (t: Tile)
        ensures
            t == (Tile {
                node_id: 0,
                x_id: 0,
                y_id: 0,
                is_wall: false,
                top: NO_TILE,
                bottom: NO_TILE,
                left: NO_TILE,
                right: NO_TILE,
                g: 0,
                h: 0,
                f: 0,
                parent_id: NO_TILE,
            }),
    {
        Tile::new(0, 0, 0, false)
    }

    /// Forgets what the last search wrote and prepares the tile for a search
    /// towards `end`: no cost, no parent, and the estimate as its score.
    pub fn reset(&mut self, end: &Tile)
        ensures
            *final(self) == old(self).cleared(*end),
            final(self).h == old(self).estimate(*end),
    {
        let dx: i64 = if self.x_id <= end.x_id {
            end.x_id as i64 - self.x_id as i64
        } else {
            self.x_id as i64 - end.x_id as i64
        };
        let dy: i64 = if self.y_id <= end.y_id {
            end.y_id as i64 - self.y_id as i64
        } else {
            self.y_id as i64 - end.y_id as i64
        };
        let h: i64 = STEP_COST * (dx + dy);
        self.g = 0;
        self.h = h;
        self.f = h;
        self.parent_id = NO_TILE;
    }

    /// Sets the cost and the score of a tile whose parent's way from the start
    /// costs `parent_g`: one step more than the parent, plus the estimate.
    pub fn calc_f_g(&mut self, parent_g: i64)
        requires
            parent_g + STEP_COST <= i64::MAX,
            i64::MIN <= parent_g + STEP_COST + old(self).h <= i64::MAX,
        ensures
            *final(self) == (Tile {
                g: (parent_g + STEP_COST) as i64,
                f: (parent_g + STEP_COST + old(self).h) as i64,
                ..*old(self)
            }),
    {
        self.g = parent_g + STEP_COST;
        self.f = self.g + self.h;
    }
}

} // verus!
