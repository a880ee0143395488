//! The grid: how a canvas is cut into tiles, which tiles a fresh grid holds,
//! and which neighbour references its tiles get.

use crate::search::{links_in_range, same_cells};
use crate::tile::{Tile, NO_TILE};
use vstd::prelude::*;

verus! {

/// Wall draws are hundredths: a draw is meant to be any of 0 to 99, each as
/// likely as the other.
pub const DRAW_SCALE: u32 = 100;

/// The lowest draw that makes a tile a wall. Three draws in ten are walls.
pub const WALL_DRAW_MIN: u32 = 70;

/// Whether a draw makes a wall.
pub open spec fn wall_drawn(draw: u32) -> bool {
    draw >= WALL_DRAW_MIN
}

/// Whether a canvas of the given size can be cut into tiles of the given
/// size: all three are positive, the tile size divides both sides, and the
/// number of tiles fits a tile reference.
pub open spec fn grid_fits(grid_width: u32, grid_height: u32, tile_size: u32) -> bool {
    &&& tile_size > 0
    &&& grid_width > 0
    &&& grid_height > 0
    &&& grid_width % tile_size == 0
    &&& grid_height % tile_size == 0
    &&& (grid_width / tile_size) * (grid_height / tile_size) <= i32::MAX
}

/// The tile that a fresh grid of `cols` columns holds at index `i`.
pub open spec fn fresh_tile(i: int, cols: int, is_wall: bool) -> Tile {
    Tile {
        node_id: i as usize,
        x_id: (i % cols) as i32,
        y_id: (i / cols) as i32,
        is_wall,
        top: NO_TILE,
        bottom: NO_TILE,
        left: NO_TILE,
        right: NO_TILE,
        g: 0,
        h: 0,
        f: 0,
        parent_id: NO_TILE,
    }
}

/// The tiles of a fresh grid, row by row: tile `i` is a wall if draw `i` makes
/// one.
pub open spec fn fresh_tiles(cols: int, rows: int, wall_draws: Seq<u32>) -> Seq<Tile> {
    Seq::new((cols * rows) as nat, |i: int| fresh_tile(i, cols, wall_drawn(wall_draws[i])))
}

/// Whether `tiles` are the tiles of a grid of `cols` columns and `rows` rows,
/// row by row: each tile knows its index, its column and its row.
pub open spec fn is_grid(tiles: Seq<Tile>, cols: int, rows: int) -> bool {
    &&& cols > 0
    &&& rows > 0
    &&& tiles.len() == cols * rows
    &&& tiles.len() <= i32::MAX
    &&& forall|i: int|
        0 <= i < tiles.len() ==> {
            &&& (#[trigger] tiles[i]).node_id == i
            &&& tiles[i].x_id == i % cols
            &&& tiles[i].y_id == i / cols
        }
}

/// The reference that leads to the cell in column `x` and row `y`: the index
/// of its tile, or no tile if the cell is off the grid or a wall.
pub open spec fn link_to(tiles: Seq<Tile>, cols: int, rows: int, x: int, y: int) -> i32 {
    if 0 <= x < cols && 0 <= y < rows && !tiles[y * cols + x].is_wall {
        (y * cols + x) as i32
    } else {
        NO_TILE
    }
}

/// Tile `i` with its four neighbour references set. Whether the tile itself
/// is a wall plays no part.
pub open spec fn linked_tile(tiles: Seq<Tile>, cols: int, rows: int, i: int) -> Tile {
    let t = tiles[i];
    Tile {
        right: link_to(tiles, cols, rows, t.x_id + 1, t.y_id as int),
        left: link_to(tiles, cols, rows, t.x_id - 1, t.y_id as int),
        top: link_to(tiles, cols, rows, t.x_id as int, t.y_id - 1),
        bottom: link_to(tiles, cols, rows, t.x_id as int, t.y_id + 1),
        ..t
    }
}

/// The tiles with the neighbour references of every tile set.
pub open spec fn linked(tiles: Seq<Tile>, cols: int, rows: int) -> Seq<Tile> {
    Seq::new(tiles.len(), |i: int| linked_tile(tiles, cols, rows, i))
}

/// Whether no neighbour reference leads to a wall.
pub open spec fn links_avoid_walls(tiles: Seq<Tile>) -> bool {
    forall|i: int|
        0 <= i < tiles.len() ==> {
            &&& (#[trigger] tiles[i]).top >= 0 ==> !tiles[tiles[i].top as int].is_wall
            &&& tiles[i].bottom >= 0 ==> !tiles[tiles[i].bottom as int].is_wall
            &&& tiles[i].left >= 0 ==> !tiles[tiles[i].left as int].is_wall
            &&& tiles[i].right >= 0 ==> !tiles[tiles[i].right as int].is_wall
        }
}

/// A cell of the grid has an index in the tile array, and the index gives
/// back its column and its row.
pub proof fn lemma_cell_index(x: int, y: int, cols: int, rows: int)
    requires
        0 <= x < cols,
        0 <= y < rows,
    ensures
        0 <= y * cols + x < cols * rows,
        (y * cols + x) % cols == x,
        (y * cols + x) / cols == y,
{
    assert(0 <= y * cols && y * cols + cols <= rows * cols) by (nonlinear_arith)
        requires
            0 <= y < rows,
            0 < cols,
    ;
    assert(rows * cols == cols * rows) by (nonlinear_arith);
    vstd::arithmetic::div_mod::lemma_fundamental_div_mod_converse(y * cols + x, cols, y, x);
}

/// An index of the tile array is a cell of the grid.
pub proof fn lemma_index_cell(i: int, cols: int, rows: int)
    requires
        0 <= i < cols * rows,
        cols > 0,
    ensures
        0 <= i % cols < cols,
        0 <= i / cols < rows,
        (i / cols) * cols + i % cols == i,
{
    vstd::arithmetic::div_mod::lemma_fundamental_div_mod(i, cols);
    let q = i / cols;
    assert(q * cols == cols * q) by (nonlinear_arith);
    assert(0 <= q < rows) by (nonlinear_arith)
        requires
            0 <= i < cols * rows,
            cols > 0,
            i == cols * q + i % cols,
            0 <= i % cols < cols,
    ;
}

/// A fresh grid has one tile for each cell, and each tile knows its index,
/// its column and its row.
pub proof fn lemma_fresh_tiles_are_grid(cols: int, rows: int, wall_draws: Seq<u32>)
    requires
        cols > 0,
        rows > 0,
        cols * rows <= i32::MAX,
    ensures
        fresh_tiles(cols, rows, wall_draws).len() == cols * rows,
        is_grid(fresh_tiles(cols, rows, wall_draws), cols, rows),
{
    let tiles = fresh_tiles(cols, rows, wall_draws);
    assert(cols * rows > 0) by (nonlinear_arith)
        requires
            cols > 0,
            rows > 0,
    ;
    assert forall|i: int| 0 <= i < tiles.len() implies {
        &&& (#[trigger] tiles[i]).node_id == i
        &&& tiles[i].x_id == i % cols
        &&& tiles[i].y_id == i / cols
    } by {
        lemma_index_cell(i, cols, rows);
        assert(rows <= cols * rows) by (nonlinear_arith)
            requires
                cols > 0,
                rows > 0,
        ;
        assert(cols <= cols * rows) by (nonlinear_arith)
            requires
                cols > 0,
                rows > 0,
        ;
    }
}

/// Setting the references leaves a grid a grid, and afterwards every
/// reference leads to a tile that is no wall.
pub proof fn lemma_linked_is_grid(tiles: Seq<Tile>, cols: int, rows: int)
    requires
        is_grid(tiles, cols, rows),
    ensures
        is_grid(linked(tiles, cols, rows), cols, rows),
        links_in_range(linked(tiles, cols, rows)),
        links_avoid_walls(linked(tiles, cols, rows)),
{
    let all = linked(tiles, cols, rows);
    assert forall|i: int| 0 <= i < all.len() implies (#[trigger] all[i]).links_below(all.len()) && {
        &&& all[i].top >= 0 ==> !all[all[i].top as int].is_wall
        &&& all[i].bottom >= 0 ==> !all[all[i].bottom as int].is_wall
        &&& all[i].left >= 0 ==> !all[all[i].left as int].is_wall
        &&& all[i].right >= 0 ==> !all[all[i].right as int].is_wall
    } by {
        lemma_link_leads(tiles, cols, rows, i);
    }
}

/// Each reference that a tile of a grid gets leads to the tile one step away
/// in its direction, and that tile is no wall.
pub proof fn lemma_link_leads(tiles: Seq<Tile>, cols: int, rows: int, i: int)
    requires
        is_grid(tiles, cols, rows),
        0 <= i < tiles.len(),
    ensures
        ({
            let all = linked(tiles, cols, rows);
            let t = all[i];
            &&& t.right >= 0 ==> {
                &&& t.right < all.len()
                &&& !all[t.right as int].is_wall
                &&& all[t.right as int].x_id == t.x_id + 1
                &&& all[t.right as int].y_id == t.y_id
            }
            &&& t.left >= 0 ==> {
                &&& t.left < all.len()
                &&& !all[t.left as int].is_wall
                &&& all[t.left as int].x_id == t.x_id - 1
                &&& all[t.left as int].y_id == t.y_id
            }
            &&& t.top >= 0 ==> {
                &&& t.top < all.len()
                &&& !all[t.top as int].is_wall
                &&& all[t.top as int].x_id == t.x_id
                &&& all[t.top as int].y_id == t.y_id - 1
            }
            &&& t.bottom >= 0 ==> {
                &&& t.bottom < all.len()
                &&& !all[t.bottom as int].is_wall
                &&& all[t.bottom as int].x_id == t.x_id
                &&& all[t.bottom as int].y_id == t.y_id + 1
            }
        }),
{
    let t = tiles[i];
    lemma_index_cell(i, cols, rows);
    let x = t.x_id as int;
    let y = t.y_id as int;
    if x + 1 < cols {
        lemma_cell_index(x + 1, y, cols, rows);
    }
    if x - 1 >= 0 {
        lemma_cell_index(x - 1, y, cols, rows);
    }
    if y - 1 >= 0 {
        lemma_cell_index(x, y - 1, cols, rows);
    }
    if y + 1 < rows {
        lemma_cell_index(x, y + 1, cols, rows);
    }
}

/// In a grid with set references, a tile that another refers to is no wall.
pub proof fn lemma_referred_is_passable(tiles: Seq<Tile>, cols: int, rows: int, from: int, to: int)
    requires
        is_grid(tiles, cols, rows),
        tiles == linked(tiles, cols, rows),
        0 <= from < tiles.len(),
        tiles[from].refers_to(to),
    ensures
        0 <= to < tiles.len(),
        !tiles[to].is_wall,
{
    lemma_link_leads(tiles, cols, rows, from);
}

/// In a grid with set references, a tile that refers to a tile without
/// references is a wall: it lies beside that tile, which would refer to it
/// otherwise.
pub proof fn lemma_beside_walled_in(tiles: Seq<Tile>, cols: int, rows: int, from: int, to: int)
    requires
        is_grid(tiles, cols, rows),
        tiles == linked(tiles, cols, rows),
        0 <= from < tiles.len(),
        tiles[from].refers_to(to),
        0 <= to < tiles.len(),
        tiles[to].top < 0,
        tiles[to].bottom < 0,
        tiles[to].left < 0,
        tiles[to].right < 0,
    ensures
        tiles[from].is_wall,
{
    let t = tiles[from];
    let e = tiles[to];
    let x = t.x_id as int;
    let y = t.y_id as int;
    lemma_index_cell(from, cols, rows);
    lemma_index_cell(to, cols, rows);
    assert(t == linked_tile(tiles, cols, rows, from));
    assert(e == linked_tile(tiles, cols, rows, to));
    assert(y * cols + x == from);
    if t.right == to {
        lemma_cell_index(x + 1, y, cols, rows);
        assert(e.x_id == x + 1 && e.y_id == y);
        assert(e.left == link_to(tiles, cols, rows, x, y));
    } else if t.left == to {
        lemma_cell_index(x - 1, y, cols, rows);
        assert(e.x_id == x - 1 && e.y_id == y);
        assert(e.right == link_to(tiles, cols, rows, x, y));
    } else if t.top == to {
        lemma_cell_index(x, y - 1, cols, rows);
        assert(e.x_id == x && e.y_id == y - 1);
        assert(e.bottom == link_to(tiles, cols, rows, x, y));
    } else {
        lemma_cell_index(x, y + 1, cols, rows);
        assert(e.x_id == x && e.y_id == y + 1);
        assert(e.top == link_to(tiles, cols, rows, x, y));
    }
}

/// Setting the references a second time changes nothing.
pub proof fn lemma_linking_twice(tiles: Seq<Tile>, cols: int, rows: int)
    requires
        is_grid(tiles, cols, rows),
    ensures
        linked(linked(tiles, cols, rows), cols, rows) == linked(tiles, cols, rows),
{
    let once = linked(tiles, cols, rows);
    let twice = linked(once, cols, rows);
    assert forall|i: int| 0 <= i < once.len() implies twice[i] == once[i] by {
        let t = tiles[i];
        lemma_index_cell(i, cols, rows);
        let x = t.x_id as int;
        let y = t.y_id as int;
        if x + 1 < cols {
            lemma_cell_index(x + 1, y, cols, rows);
        }
        if x - 1 >= 0 {
            lemma_cell_index(x - 1, y, cols, rows);
        }
        if y - 1 >= 0 {
            lemma_cell_index(x, y - 1, cols, rows);
        }
        if y + 1 < rows {
            lemma_cell_index(x, y + 1, cols, rows);
        }
    }
    assert(twice =~= once);
}

/// Tiles that differ from the tiles of a grid with set references only in
/// what a search writes are the tiles of that grid with set references too.
pub proof fn lemma_same_cells_same_grid(now: Seq<Tile>, given: Seq<Tile>, cols: int, rows: int)
    requires
        same_cells(now, given),
        is_grid(given, cols, rows),
        given == linked(given, cols, rows),
    ensures
        is_grid(now, cols, rows),
        now == linked(now, cols, rows),
{
    assert forall|i: int| 0 <= i < now.len() implies {
        &&& (#[trigger] now[i]).node_id == i
        &&& now[i].x_id == i % cols
        &&& now[i].y_id == i / cols
    } by {
        assert(now[i].same_cell(given[i]));
    }
    assert forall|i: int| 0 <= i < now.len() implies now[i] == linked_tile(now, cols, rows, i) by {
        assert(now[i].same_cell(given[i]));
        assert(given[i] == linked_tile(given, cols, rows, i));
        let t = given[i];
        lemma_index_cell(i, cols, rows);
        let x = t.x_id as int;
        let y = t.y_id as int;
        if x + 1 < cols {
            lemma_cell_index(x + 1, y, cols, rows);
            assert(now[y * cols + x + 1].same_cell(given[y * cols + x + 1]));
        }
        if x - 1 >= 0 {
            lemma_cell_index(x - 1, y, cols, rows);
            assert(now[y * cols + x - 1].same_cell(given[y * cols + x - 1]));
        }
        if y - 1 >= 0 {
            lemma_cell_index(x, y - 1, cols, rows);
            assert(now[(y - 1) * cols + x].same_cell(given[(y - 1) * cols + x]));
        }
        if y + 1 < rows {
            lemma_cell_index(x, y + 1, cols, rows);
            assert(now[(y + 1) * cols + x].same_cell(given[(y + 1) * cols + x]));
        }
    }
    assert(now =~= linked(now, cols, rows));
}

/// Makes the tiles of a fresh grid, row by row.
///
/// The canvas is `grid_width` by `grid_height` pixels and a tile is
/// `tile_size` pixels wide and high. Tile `i` is a wall if `wall_draws[i]`
/// makes one; the draws come from the caller's source of chance.
pub fn generate_tiles(
    grid_width: u32,
    grid_height: u32,
    tile_size: u32,
    wall_draws: &Vec<u32>,
) -> (tiles: Vec<Tile>)
    requires
        grid_fits(grid_width, grid_height, tile_size),
        wall_draws@.len() == (grid_width / tile_size) * (grid_height / tile_size),
    ensures
        tiles@ == fresh_tiles(
            (grid_width / tile_size) as int,
            (grid_height / tile_size) as int,
            wall_draws@,
        ),
        tiles@.len() == (grid_width / tile_size) * (grid_height / tile_size),
        is_grid(tiles@, (grid_width / tile_size) as int, (grid_height / tile_size) as int),
{
    let mut vec: Vec<Tile> = Vec::new();
    let num_y_tiles: u32 = grid_height / tile_size;
    let num_x_tiles: u32 = grid_width / tile_size;
    let ghost cols: int = num_x_tiles as int;
    let ghost rows: int = num_y_tiles as int;
    let ghost goal: Seq<Tile> = fresh_tiles(cols, rows, wall_draws@);
    proof {
        assert(cols > 0 && rows > 0) by {
            vstd::arithmetic::div_mod::lemma_fundamental_div_mod(
                grid_width as int,
                tile_size as int,
            );
            vstd::arithmetic::div_mod::lemma_fundamental_div_mod(
                grid_height as int,
                tile_size as int,
            );
            if cols == 0 {
                assert(tile_size * cols == 0);
            }
            if rows == 0 {
                assert(tile_size * rows == 0);
            }
        }
        lemma_fresh_tiles_are_grid(cols, rows, wall_draws@);
    }
    let mut y: u32 = 0;
    while y < num_y_tiles
        invariant
            y <= num_y_tiles,
            cols == num_x_tiles,
            rows == num_y_tiles,
            cols > 0,
            cols * rows <= i32::MAX,
            wall_draws@.len() == cols * rows,
            goal == fresh_tiles(cols, rows, wall_draws@),
            goal.len() == cols * rows,
            vec@.len() == y * cols,
            forall|k: int| 0 <= k < vec@.len() ==> vec@[k] == goal[k],
        decreases num_y_tiles - y,
    {
        let mut x: u32 = 0;
        while x < num_x_tiles
            invariant
                x <= num_x_tiles,
                y < num_y_tiles,
                cols == num_x_tiles,
                rows == num_y_tiles,
                cols * rows <= i32::MAX,
                wall_draws@.len() == cols * rows,
                goal == fresh_tiles(cols, rows, wall_draws@),
                goal.len() == cols * rows,
                vec@.len() == y * cols + x,
                forall|k: int| 0 <= k < vec@.len() ==> vec@[k] == goal[k],
            decreases num_x_tiles - x,
        {
            proof {
                lemma_cell_index(x as int, y as int, cols, rows);
            }
            let index: u32 = y * num_x_tiles + x;
            let is_wall: bool = wall_draws[index as usize] >= WALL_DRAW_MIN;
            let t: Tile = Tile::new(x as i32, y as i32, index as usize, is_wall);
            vec.push(t);
            x = x + 1;
        }
        proof {
            assert((y + 1) * cols == y * cols + cols) by (nonlinear_arith);
        }
        y = y + 1;
    }
    proof {
        assert(rows * cols == cols * rows) by (nonlinear_arith);
        assert(vec@ =~= goal);
    }
    vec
}

} // verus!
