//! The world: the tile grid, the two ends of the search, and the player.

use crate::grid::{
    fresh_tiles, generate_tiles, grid_fits, is_grid, lemma_cell_index, lemma_index_cell,
    lemma_beside_walled_in, lemma_linked_is_grid, lemma_linking_twice,
    lemma_referred_is_passable, lemma_same_cells_same_grid, link_to, linked, linked_tile,
    links_avoid_walls,
};
use crate::open_list::{contains_id, sort_by_score};
use crate::path::{
    is_way, lemma_found_iff_reachable, lemma_found_way, path, reachable, way_back,
};
use crate::search::{
    checked_open, checked_tiles, expand, finished, improves, lemma_distinct_ids_fit,
    lemma_expand_steady, lemma_outcome_finished, lemma_popped_steady, lemma_relax_steady,
    lemma_room_left, lemma_run_unfolds, lemma_start_steady, links_in_range, next_tile, outcome,
    popped, relax, run, searchable, start_state, steady, Search,
};
use crate::shortest::{
    leads, lemma_closed_scores_rise, lemma_found_way_is_shortest, lemma_grid_estimates_even,
};
use crate::tile::{Tile, NO_TILE, STEP_COST};
use std::collections::HashSet;
use vstd::prelude::*;

verus! {

/// A place on the canvas, in pixels.
#[derive(Clone, Copy, Debug, PartialEq, Eq)]
pub struct Position {
    /// Pixels from the left edge.
    pub pos_x: i64,
    /// Pixels from the top edge.
    pub pos_y: i64,
}

/// What making a world anew takes from the source of chance, in the order in
/// which it is drawn.
#[derive(Debug)]
pub struct Draws {
    /// One draw for each tile, row by row, in hundredths.
    pub walls: Vec<u32>,
    /// Column of the start tile.
    pub start_x: i32,
    /// Row of the start tile.
    pub start_y: i32,
    /// Column of the end tile.
    pub end_x: i32,
    /// Row of the end tile.
    pub end_y: i32,
}

impl Draws {
    /// Whether the draws are those for a grid of `cols` columns and `rows`
    /// rows: one wall draw for each tile, and both ends on the grid.
    pub open spec fn fit(self, cols: int, rows: int) -> bool {
        &&& self.walls@.len() == cols * rows
        &&& 0 <= self.start_x < cols
        &&& 0 <= self.start_y < rows
        &&& 0 <= self.end_x < cols
        &&& 0 <= self.end_y < rows
    }

    /// Whether the draws are those for a grid of `cols` columns and `rows`
    /// rows.
    pub fn fits(&self, cols: u32, rows: u32) -> (ok: bool)
        ensures
            ok == self.fit(cols as int, rows as int),
    {
        proof {
            assert(0 <= cols * rows <= u64::MAX) by (nonlinear_arith)
                requires
                    0 <= cols <= u32::MAX,
                    0 <= rows <= u32::MAX,
            ;
        }
        let count: u64 = (cols as u64) * (rows as u64);
        let walls_fit: bool = self.walls.len() as u64 == count;
        let start_fits: bool = 0 <= self.start_x && (self.start_x as u32) < cols && 0
            <= self.start_y && (self.start_y as u32) < rows;
        let end_fits: bool = 0 <= self.end_x && (self.end_x as u32) < cols && 0 <= self.end_y && (
        self.end_y as u32) < rows;
        walls_fit && start_fits && end_fits
    }
}

/// The column or row whose tile lies nearest to the pixel coordinate `p`:
/// `p` divided by the tile size `size` and rounded up, and no less than 0
/// and no more than the largest `u32`.
pub open spec fn cell_of(p: int, size: int) -> int {
    let c = if p % size == 0 {
        p / size
    } else {
        p / size + 1
    };
    if c < 0 {
        0
    } else if c > u32::MAX {
        u32::MAX as int
    } else {
        c
    }
}

/// A coordinate that is not positive belongs to cell 0.
pub proof fn lemma_cell_of_low(p: int, size: int)
    requires
        p <= 0,
        size > 0,
    ensures
        cell_of(p, size) == 0,
{
    vstd::arithmetic::div_mod::lemma_fundamental_div_mod(p, size);
    let q = p / size;
    let r = p % size;
    assert(0 <= r < size) by {
        vstd::arithmetic::div_mod::lemma_mod_bound(p, size);
    }
    assert(r == 0 ==> q <= 0) by (nonlinear_arith)
        requires
            p == size * q + r,
            p <= 0,
            size > 0,
    ;
    assert(r != 0 ==> q + 1 <= 0) by (nonlinear_arith)
        requires
            p == size * q + r,
            0 <= r < size,
            p <= 0,
            size > 0,
    ;
}

/// Half a tile before the corner of the tile in cell `x` lies cell `x`.
pub proof fn lemma_cell_of_corner(x: int, size: int)
    requires
        0 <= x <= u32::MAX,
        size > 0,
    ensures
        cell_of(x * size - size / 2, size) == x,
{
    let half = size / 2;
    let p = x * size - half;
    if half == 0 {
        vstd::arithmetic::div_mod::lemma_fundamental_div_mod_converse(p, size, x, 0);
    } else {
        assert(p == (x - 1) * size + (size - half)) by (nonlinear_arith)
            requires
                p == x * size - half,
        ;
        vstd::arithmetic::div_mod::lemma_fundamental_div_mod_converse(
            p,
            size,
            x - 1,
            size - half,
        );
    }
}

/// The column or row whose tile lies nearest to the pixel coordinate `p`, for
/// tiles of `size` pixels.
pub fn nearest_cell(p: i64, size: u32) -> (cell: u32)
    requires
        size > 0,
    ensures
        cell == cell_of(p as int, size as int),
{
    if p <= 0 {
        proof {
            lemma_cell_of_low(p as int, size as int);
        }
        0
    } else {
        let q: i64 = p / (size as i64);
        let r: i64 = p % (size as i64);
        proof {
            vstd::arithmetic::div_mod::lemma_fundamental_div_mod(p as int, size as int);
            vstd::arithmetic::div_mod::lemma_mod_bound(p as int, size as int);
            assert(0 <= q <= p) by (nonlinear_arith)
                requires
                    p == size * q + r,
                    0 <= r < size,
                    p > 0,
                    size > 0,
            ;
            if r != 0 {
                assert(q < p) by (nonlinear_arith)
                    requires
                        p == size * q + r,
                        0 < r < size,
                        q >= 0,
                ;
            }
        }
        let c: i64 = if r == 0 {
            q
        } else {
            q + 1
        };
        if c > u32::MAX as i64 {
            u32::MAX
        } else {
            c as u32
        }
    }
}

/// The list in reverse order.
pub fn reversed(list: &Vec<usize>) -> (out: Vec<usize>)
    ensures
        out@ == list@.reverse(),
{
    let mut out: Vec<usize> = Vec::new();
    let mut k: usize = list.len();
    while k > 0
        invariant
            k <= list@.len(),
            out@.len() == list@.len() - k,
            forall|i: int| 0 <= i < out@.len() ==> out@[i] == list@[list@.len() - 1 - i],
        decreases k,
    {
        k = k - 1;
        out.push(list[k]);
    }
    proof {
        assert(out@ =~= list@.reverse());
    }
    out
}

/// How a search ended.
#[derive(Debug, PartialEq, Eq)]
pub struct SearchOutcome {
    /// Whether the goal was closed, so that a way from the start to the goal
    /// exists.
    pub found: bool,
    /// The tiles that the search closed, in the order in which it closed them.
    pub closed: Vec<usize>,
}

/// The world: a canvas cut into square tiles, a start and an end tile, and
/// the player.
#[derive(Debug)]
pub struct WorldState {
    /// Whether the host redraws at a fixed interval.
    pub debug: bool,
    /// Width of the canvas in pixels.
    pub width: u32,
    /// Height of the canvas in pixels.
    pub height: u32,
    /// Factor by which the canvas is finer than the screen.
    pub quality: u32,
    /// Length of a tile's edge in pixels.
    pub tile_size: u32,
    /// The tile a search starts from, or a negative number.
    pub start_id: i32,
    /// The tile a search is to reach, or a negative number.
    pub end_id: i32,
    /// Where the player stands.
    pub player: Position,
    /// The tiles, row by row.
    pub tiles: Vec<Tile>,
    /// Whether the tiles were made anew since the host last looked.
    pub recent_regen: bool,
}

impl WorldState {
    /// The number of columns of the grid.
    pub open spec fn cols(self) -> int {
        (self.width / self.tile_size) as int
    }

    /// The number of rows of the grid.
    pub open spec fn rows(self) -> int {
        (self.height / self.tile_size) as int
    }

    /// Whether the tiles are those of the grid that the canvas is cut into.
    pub open spec fn has_grid(self) -> bool {
        &&& self.tile_size > 0
        &&& is_grid(self.tiles@, self.cols(), self.rows())
    }

    /// Whether the world is whole: the canvas can be cut into tiles, the
    /// tiles are those of its grid with their neighbour references set, and
    /// start and end are tiles.
    pub open spec fn wf(self) -> bool {
        &&& grid_fits(self.width, self.height, self.tile_size)
        &&& is_grid(self.tiles@, self.cols(), self.rows())
        &&& self.tiles@ == linked(self.tiles@, self.cols(), self.rows())
        &&& 0 <= self.start_id < self.tiles@.len()
        &&& 0 <= self.end_id < self.tiles@.len()
    }

    /// The index that the tile nearest to the pixel position (`x`, `y`) has,
    /// if the grid has such a tile.
    pub open spec fn closest_id(self, x: int, y: int) -> int {
        cell_of(y, self.tile_size as int) * self.cols() + cell_of(x, self.tile_size as int)
    }

    /// The index of the tile that the player stands on: the tile nearest to
    /// the point half a tile up and left of the player.
    pub open spec fn player_tile_id(self) -> int {
        self.closest_id(
            self.player.pos_x - self.tile_size / 2,
            self.player.pos_y - self.tile_size / 2,
        )
    }

    /// Where the corner of the tile in column `x` and row `y` lies on the
    /// canvas.
    pub open spec fn corner(self, x: int, y: int) -> Position {
        Position { pos_x: (x * self.tile_size) as i64, pos_y: (y * self.tile_size) as i64 }
    }

    /// The world as it is first shown: a canvas of 1800 by 1200 pixels cut
    /// into tiles of 50 pixels, made anew from `draws`.
    pub fn new(draws: &Draws) -> (w: WorldState)
        requires
            draws.fit(36, 24),
        ensures
            w.wf(),
            !w.debug,
            !w.recent_regen,
            w.width == 1800,
            w.height == 1200,
            w.quality == 2,
            w.tile_size == 50,
            w.tiles@ == linked(fresh_tiles(36, 24, draws.walls@), 36, 24),
            w.start_id == draws.start_y * 36 + draws.start_x,
            w.end_id == draws.end_y * 36 + draws.end_x,
            w.player == w.corner(draws.start_x as int, draws.start_y as int),
    {
        let quality: u32 = 2;
        let width: u32 = 900 * quality;
        let height: u32 = 600 * quality;
        let tile_size: u32 = 50;

        let mut w = WorldState {
            debug: false,
            width,
            height,
            quality,
            tile_size,
            tiles: Vec::new(),
            player: Position { pos_x: 0, pos_y: 0 },
            start_id: NO_TILE,
            end_id: NO_TILE,
            recent_regen: false,
        };
        w.reset(draws);
        w
    }

    /// Makes the world anew: fresh tiles with walls as drawn, their neighbour
    /// references, the start and the end as drawn, and the player on the
    /// start tile.
    pub fn reset(&mut self, draws: &Draws)
        requires
            grid_fits(old(self).width, old(self).height, old(self).tile_size),
            draws.fit(old(self).cols(), old(self).rows()),
        ensures
            final(self).wf(),
            final(self).tiles@ == linked(
                fresh_tiles(old(self).cols(), old(self).rows(), draws.walls@),
                old(self).cols(),
                old(self).rows(),
            ),
            final(self).start_id == draws.start_y * old(self).cols() + draws.start_x,
            final(self).end_id == draws.end_y * old(self).cols() + draws.end_x,
            final(self).player == old(self).corner(draws.start_x as int, draws.start_y as int),
            *final(self) == (WorldState {
                tiles: final(self).tiles,
                start_id: final(self).start_id,
                end_id: final(self).end_id,
                player: final(self).player,
                ..*old(self)
            }),
    {
        self.tiles = generate_tiles(self.width, self.height, self.tile_size, &draws.walls);
        self.set_all_tile_sides();
        self.set_target_tiles(draws.start_x, draws.start_y, draws.end_x, draws.end_y);
        proof {
            let cols = self.cols();
            let rows = self.rows();
            let size = self.tile_size as int;
            lemma_cell_index(draws.start_x as int, draws.start_y as int, cols, rows);
            lemma_cell_index(draws.end_x as int, draws.end_y as int, cols, rows);
            lemma_cell_of_corner(draws.start_x as int, size);
            lemma_cell_of_corner(draws.start_y as int, size);
            self.lemma_corner_fits(draws.start_x as int, draws.start_y as int);
        }
        self.set_start_node();
    }

    /// The corner of a tile of the grid lies on the canvas.
    pub proof fn lemma_corner_fits(self, x: int, y: int)
        requires
            self.tile_size > 0,
            0 <= x < self.cols(),
            0 <= y < self.rows(),
        ensures
            0 <= x * self.tile_size <= self.width,
            0 <= y * self.tile_size <= self.height,
    {
        let size = self.tile_size as int;
        vstd::arithmetic::div_mod::lemma_fundamental_div_mod(self.width as int, size);
        vstd::arithmetic::div_mod::lemma_fundamental_div_mod(self.height as int, size);
        vstd::arithmetic::div_mod::lemma_mod_bound(self.width as int, size);
        vstd::arithmetic::div_mod::lemma_mod_bound(self.height as int, size);
        let cols = self.cols();
        let rows = self.rows();
        assert(0 <= x * size <= size * cols) by (nonlinear_arith)
            requires
                0 <= x < cols,
                size > 0,
        ;
        assert(0 <= y * size <= size * rows) by (nonlinear_arith)
            requires
                0 <= y < rows,
                size > 0,
        ;
    }

    /// Moves the start of the search to the tile that the player stands on.
    pub fn set_start_node(&mut self)
        requires
            old(self).tile_size > 0,
            old(self).player_tile_id() <= i32::MAX,
        ensures
            final(self).start_id == old(self).player_tile_id(),
            *final(self) == (WorldState { start_id: final(self).start_id, ..*old(self) }),
    {
        let half_tile: i64 = (self.tile_size / 2) as i64;
        let x: i64 = if self.player.pos_x < i64::MIN + half_tile {
            i64::MIN
        } else {
            self.player.pos_x - half_tile
        };
        let y: i64 = if self.player.pos_y < i64::MIN + half_tile {
            i64::MIN
        } else {
            self.player.pos_y - half_tile
        };
        proof {
            let size = self.tile_size as int;
            if self.player.pos_x < i64::MIN + half_tile {
                lemma_cell_of_low(x as int, size);
                lemma_cell_of_low(self.player.pos_x - half_tile, size);
            }
            if self.player.pos_y < i64::MIN + half_tile {
                lemma_cell_of_low(y as int, size);
                lemma_cell_of_low(self.player.pos_y - half_tile, size);
            }
        }
        self.start_id = self.get_tile_id_closest_to(x, y) as i32;
    }

    /// Whether a search can run on this world: start and end are tiles, and
    /// the neighbour references lead to tiles.
    pub open spec fn searchable(self) -> bool {
        searchable(self.tiles@, self.start_id as int, self.end_id as int)
    }

    /// Whether a search can run on this world.
    pub fn is_searchable(&self) -> (ok: bool)
        ensures
            ok == self.searchable(),
    {
        let count: usize = self.tiles.len();
        if count > i32::MAX as usize || self.start_id < 0 || self.start_id as usize >= count
            || self.end_id < 0 || self.end_id as usize >= count {
            return false;
        }
        let mut i: usize = 0;
        while i < count
            invariant
                i <= count,
                count == self.tiles@.len(),
                count <= i32::MAX,
                forall|k: int| 0 <= k < i ==> (#[trigger] self.tiles@[k]).links_below(count as nat),
            decreases count - i,
        {
            let t: Tile = self.tiles[i];
            let top_leads: bool = t.top < 0 || (t.top as usize) < count;
            let bottom_leads: bool = t.bottom < 0 || (t.bottom as usize) < count;
            let left_leads: bool = t.left < 0 || (t.left as usize) < count;
            let right_leads: bool = t.right < 0 || (t.right as usize) < count;
            if !(top_leads && bottom_leads && left_leads && right_leads) {
                assert(!self.tiles@[i as int].links_below(count as nat));
                return false;
            }
            i = i + 1;
        }
        true
    }

    /// Whether the parents lead from the end tile back to the start tile over
    /// tiles of `closed` only.
    pub open spec fn has_way(self, closed: Seq<usize>) -> bool {
        &&& path(self.tiles@, self.start_id as int, self.end_id as int) is Some
        &&& forall|i: int|
            0 <= i < path(self.tiles@, self.start_id as int, self.end_id as int).unwrap().len()
                ==> closed.contains(
                #[trigger] path(self.tiles@, self.start_id as int, self.end_id as int).unwrap()[i],
            )
    }

    /// A whole world can be searched.
    pub proof fn lemma_whole_is_searchable(self)
        requires
            self.wf(),
        ensures
            self.searchable(),
    {
        lemma_linked_is_grid(self.tiles@, self.cols(), self.rows());
    }

    /// In a whole world a search finds a shortest way: if the neighbour
    /// references lead from the start to the end along `w`, the search finds
    /// the end, and the way that the parents then describe has no more steps
    /// than `w`.
    pub proof fn lemma_whole_finds_shortest(self, w: Seq<usize>)
        requires
            self.wf(),
            leads(self.tiles@, w, self.start_id as usize, self.end_id as usize),
        ensures
            self.search_outcome().closed.contains(self.end_id as usize),
            path(self.search_outcome().tiles, self.start_id as int, self.end_id as int) is Some,
            path(
                self.search_outcome().tiles,
                self.start_id as int,
                self.end_id as int,
            ).unwrap().len() <= w.len(),
    {
        self.lemma_whole_is_searchable();
        lemma_grid_estimates_even(self.tiles@, self.cols(), self.rows(), self.end_id as int);
        lemma_found_way_is_shortest(
            self.tiles@,
            self.start_id as usize,
            self.end_id as usize,
            w,
        );
        lemma_found_iff_reachable(self.tiles@, self.start_id as usize, self.end_id as usize);
    }

    /// In a whole world the scores of the closed tiles never fall along the
    /// order in which a search closes them.
    pub proof fn lemma_whole_scores_rise(self, j: int, k: int)
        requires
            self.wf(),
            0 <= j <= k < self.search_outcome().closed.len(),
        ensures
            self.search_outcome().tiles[self.search_outcome().closed[j] as int].f
                <= self.search_outcome().tiles[self.search_outcome().closed[k] as int].f,
    {
        self.lemma_whole_is_searchable();
        lemma_grid_estimates_even(self.tiles@, self.cols(), self.rows(), self.end_id as int);
        lemma_closed_scores_rise(
            self.tiles@,
            self.start_id as usize,
            self.end_id as usize,
            j,
            k,
        );
    }

    /// In a whole world a search does not find an end that refers to no tile,
    /// unless it starts at the end or on a wall: every tile beside such an end
    /// is a wall, and no tile refers to a wall.
    pub proof fn lemma_walled_in_end(self)
        requires
            self.wf(),
            self.start_id != self.end_id,
            !self.tiles@[self.start_id as int].is_wall,
            self.tiles@[self.end_id as int].top < 0,
            self.tiles@[self.end_id as int].bottom < 0,
            self.tiles@[self.end_id as int].left < 0,
            self.tiles@[self.end_id as int].right < 0,
        ensures
            !reachable(self.tiles@, self.start_id as usize, self.end_id as usize),
            !self.search_outcome().closed.contains(self.end_id as usize),
    {
        let tiles = self.tiles@;
        let cols = self.cols();
        let rows = self.rows();
        let start = self.start_id as usize;
        let end = self.end_id as usize;
        self.lemma_whole_is_searchable();
        lemma_found_iff_reachable(tiles, start, end);
        if reachable(tiles, start, end) {
            let w = choose|w: Seq<usize>|
                is_way(tiles, w) && w[0] == start && #[trigger] w.last() == end;
            let last = w.len() - 1;
            let beside = w[last - 1];
            assert(tiles[w[last - 1] as int].refers_to(w[last] as int));
            // the tile before the end lies beside the end, so it is a wall
            lemma_beside_walled_in(tiles, cols, rows, beside as int, end as int);
            // but no tile refers to a wall, and the start is none
            if last - 1 > 0 {
                assert(tiles[w[last - 2] as int].refers_to(w[last - 1] as int));
                lemma_referred_is_passable(tiles, cols, rows, w[last - 2] as int, beside as int);
            }
        }
    }

    /// The state in which a search on this world ends.
    pub open spec fn search_outcome(self) -> Search {
        outcome(self.tiles@, self.start_id as usize, self.end_id as usize)
    }

    /// Searches a way from the start tile to the end tile along the neighbour
    /// references.
    ///
    /// Every tile is cleared first. Then, round by round, the open tile of
    /// lowest score is closed and the tiles it refers to are looked at from
    /// it, until the end tile is closed or no tile is open. Afterwards each
    /// tile that was reached refers to the tile it was reached from.
    ///
    /// The search finds the end exactly if the neighbour references lead there
    /// from the start.
    pub fn calc_astar(&mut self) -> (result: SearchOutcome)
        requires
            old(self).searchable(),
        ensures
            final(self).tiles@ == old(self).search_outcome().tiles,
            result.closed@ == old(self).search_outcome().closed,
            result.found == old(self).search_outcome().closed.contains(old(self).end_id as usize),
            result.found == reachable(
                old(self).tiles@,
                old(self).start_id as usize,
                old(self).end_id as usize,
            ),
            result.found || old(self).search_outcome().open.len() == 0,
            result.found ==> final(self).has_way(result.closed@),
            *final(self) == (WorldState { tiles: final(self).tiles, ..*old(self) }),
            final(self).searchable(),
            old(self).wf() ==> final(self).wf(),
    {
        broadcast use vstd::std_specs::hash::group_hash_axioms;

        let start: usize = self.start_id as usize;
        let end: usize = self.end_id as usize;
        let count: usize = self.tiles.len();
        let end_tile: Tile = self.tiles[end];
        let ghost given: Seq<Tile> = self.tiles@;

        let mut i: usize = 0;
        while i < count
            invariant
                i <= count,
                count == given.len(),
                self.tiles@.len() == count,
                *self == (WorldState { tiles: self.tiles, ..*old(self) }),
                end_tile == given[end as int],
                forall|k: int| 0 <= k < i ==> self.tiles@[k] == given[k].cleared(end_tile),
                forall|k: int| i <= k < count ==> self.tiles@[k] == given[k],
            decreases count - i,
        {
            let mut t: Tile = self.tiles[i];
            t.reset(&end_tile);
            self.tiles.set(i, t);
            i = i + 1;
        }

        let mut open_nodes: Vec<usize> = Vec::new();
        let mut closed_nodes: Vec<usize> = Vec::new();
        let mut closed_set: HashSet<usize> = HashSet::new();
        open_nodes.push(start);
        let mut round: usize = 0;
        proof {
            let first = start_state(given, start, end);
            assert(self.tiles@ == first.tiles);
            assert(open_nodes@ == first.open);
            assert(closed_nodes@ == first.closed);
            lemma_start_steady(given, start, end);
        }
        // Stop searching when either
        // 1) the end is closed, in which case the way has been found, or
        // 2) the open list is empty: there is no way.
        while !closed_set.contains(&end) && open_nodes.len() > 0
            invariant
                count == given.len(),
                self.tiles@.len() == count,
                end < count,
                *self == (WorldState { tiles: self.tiles, ..*old(self) }),
                steady(Search { tiles: self.tiles@, open: open_nodes@, closed: closed_nodes@ }),
                round == closed_nodes@.len(),
                round <= count,
                forall|id: usize| closed_set@.contains(id) <==> closed_nodes@.contains(id),
                outcome(given, start, end) == run(
                    Search { tiles: self.tiles@, open: open_nodes@, closed: closed_nodes@ },
                    end,
                    (count - round) as nat,
                ),
            decreases count - round,
        {
            let ghost before = Search {
                tiles: self.tiles@,
                open: open_nodes@,
                closed: closed_nodes@,
            };
            proof {
                lemma_room_left(before);
                lemma_popped_steady(before);
                lemma_expand_steady(before);
                lemma_run_unfolds(before, end, (count - round) as nat);
            }
            // Find the lowest score
            sort_by_score(&mut open_nodes, &self.tiles);
            let current: usize = open_nodes.swap_remove(0);
            closed_nodes.push(current);
            closed_set.insert(current);
            proof {
                assert(current == next_tile(before));
                assert(open_nodes@ == popped(before).open);
                assert(closed_nodes@ == popped(before).closed);
                assert(closed_nodes@[round as int] == current);
                assert forall|id: usize| closed_set@.contains(id) <==> closed_nodes@.contains(
                    id,
                ) by {
                    if closed_nodes@.contains(id) && id != current {
                        let k = choose|k: int|
                            0 <= k < closed_nodes@.len() && closed_nodes@[k] == id;
                        assert(before.closed[k] == id);
                    }
                    if before.closed.contains(id) {
                        let k = choose|k: int|
                            0 <= k < before.closed.len() && before.closed[k] == id;
                        assert(closed_nodes@[k] == id);
                    }
                }
            }
            let t: Tile = self.tiles[current];
            let ghost closed: Seq<usize> = closed_nodes@;
            assert(t.links_below(count as nat));
            // Take the sides in turn every fourth round and in reverse
            // otherwise, so that ways zigzag instead of running along the
            // edges.
            if round % 4 == 0 {
                self.check_side(&mut open_nodes, &closed_set, Ghost(closed), current, t.top);
                self.check_side(&mut open_nodes, &closed_set, Ghost(closed), current, t.bottom);
                self.check_side(&mut open_nodes, &closed_set, Ghost(closed), current, t.right);
                self.check_side(&mut open_nodes, &closed_set, Ghost(closed), current, t.left);
            } else {
                self.check_side(&mut open_nodes, &closed_set, Ghost(closed), current, t.left);
                self.check_side(&mut open_nodes, &closed_set, Ghost(closed), current, t.right);
                self.check_side(&mut open_nodes, &closed_set, Ghost(closed), current, t.bottom);
                self.check_side(&mut open_nodes, &closed_set, Ghost(closed), current, t.top);
            }
            round = round + 1;
            proof {
                assert((Search { tiles: self.tiles@, open: open_nodes@, closed: closed_nodes@ })
                    == expand(before));
            }
        }
        let found: bool = closed_set.contains(&end);
        proof {
            let last = Search { tiles: self.tiles@, open: open_nodes@, closed: closed_nodes@ };
            assert(finished(last, end));
            lemma_run_unfolds(last, end, (count - round) as nat);
            lemma_outcome_finished(given, start, end);
            lemma_found_iff_reachable(given, start, end);
            if found {
                lemma_found_way(given, start, end);
            }
            if old(self).wf() {
                lemma_same_cells_same_grid(self.tiles@, given, self.cols(), self.rows());
            }
        }
        SearchOutcome { found, closed: closed_nodes }
    }

    /// The way from the start tile to the end tile that the parents describe,
    /// start first, or nothing if the parents do not lead from the end back to
    /// the start.
    pub fn reconstruct_path(&self) -> (way: Option<Vec<usize>>)
        ensures
            match way {
                Some(w) => path(self.tiles@, self.start_id as int, self.end_id as int) == Some(w@),
                None => path(self.tiles@, self.start_id as int, self.end_id as int) is None,
            },
    {
        let count: usize = self.tiles.len();
        let mut back: Vec<usize> = Vec::new();
        let mut id: i32 = self.end_id;
        let mut steps: usize = count;
        proof {
            let whole = way_back(self.tiles@, self.start_id as int, id as int, steps as nat);
            if whole is Some {
                assert(whole.unwrap() + back@.reverse() == whole.unwrap());
            }
        }
        loop
            invariant
                count == self.tiles@.len(),
                steps <= count,
                path(self.tiles@, self.start_id as int, self.end_id as int) == (match way_back(
                    self.tiles@,
                    self.start_id as int,
                    id as int,
                    steps as nat,
                ) {
                    Some(w) => Some(w + back@.reverse()),
                    None => None,
                }),
            decreases steps,
        {
            if id < 0 || id as usize >= count {
                return None;
            }
            let ghost back_then: Seq<usize> = back@;
            if id == self.start_id {
                back.push(id as usize);
                proof {
                    assert(seq![id as usize] + back_then.reverse() == back@.reverse());
                }
                return Some(reversed(&back));
            }
            if steps == 0 {
                return None;
            }
            back.push(id as usize);
            let parent: i32 = self.tiles[id as usize].parent_id;
            proof {
                let rest = way_back(
                    self.tiles@,
                    self.start_id as int,
                    parent as int,
                    (steps - 1) as nat,
                );
                if rest is Some {
                    assert(rest.unwrap().push(id as usize) + back_then.reverse() == rest.unwrap()
                        + back@.reverse());
                }
            }
            id = parent;
            steps = steps - 1;
        }
    }

    /// Follows one neighbour reference of the tile `current`, which has just
    /// been closed: a negative reference and a closed tile are passed over,
    /// any other tile is looked at from `current`.
    fn check_side(
        &mut self,
        open_nodes: &mut Vec<usize>,
        closed_set: &HashSet<usize>,
        Ghost(closed): Ghost<Seq<usize>>,
        current: usize,
        side: i32,
    )
        requires
            forall|id: usize| closed_set@.contains(id) <==> closed.contains(id),
            steady(Search { tiles: old(self).tiles@, open: old(open_nodes)@, closed }),
            current < old(self).tiles@.len(),
            closed.contains(current),
            side < old(self).tiles@.len(),
            old(self).tiles@[current as int].g + STEP_COST <= STEP_COST * closed.len(),
        ensures
            (Search { tiles: final(self).tiles@, open: final(open_nodes)@, closed }) == relax(
                Search { tiles: old(self).tiles@, open: old(open_nodes)@, closed },
                current,
                side,
            ),
            steady(Search { tiles: final(self).tiles@, open: final(open_nodes)@, closed }),
            final(self).tiles@.len() == old(self).tiles@.len(),
            final(self).tiles@[current as int] == old(self).tiles@[current as int],
            *final(self) == (WorldState { tiles: final(self).tiles, ..*old(self) }),
    {
        broadcast use vstd::std_specs::hash::group_hash_axioms;

        proof {
            let s = Search { tiles: self.tiles@, open: open_nodes@, closed };
            lemma_relax_steady(s, current, side);
            lemma_distinct_ids_fit(closed, self.tiles@.len());
        }
        // A side is there if its reference is not negative. A wall is never
        // set as a side, so walls need no thought here.
        if side >= 0 {
            let id: usize = side as usize;
            if !closed_set.contains(&id) {
                self.check_node(open_nodes, current, id);
            }
        }
    }

    /// Looks at the tile `side_node_id` from the closed tile `curr_node_id`.
    ///
    /// A tile that is not open yet is put at the end of the open list and gets
    /// `curr_node_id` as its parent. A tile that is open gets that parent only
    /// if the way over `curr_node_id` costs less than the way recorded in it.
    /// With a new parent the tile gets the parent's cost plus one step as its
    /// cost, and that cost plus its estimate as its score.
    pub fn check_node(
        &mut self,
        open_nodes: &mut Vec<usize>,
        curr_node_id: usize,
        side_node_id: usize,
    )
        requires
            curr_node_id < old(self).tiles@.len(),
            side_node_id < old(self).tiles@.len(),
            curr_node_id <= i32::MAX,
            old(self).tiles@[curr_node_id as int].g + STEP_COST <= i64::MAX,
            improves(old(self).tiles@, old(open_nodes)@, curr_node_id, side_node_id) ==> i64::MIN
                <= old(self).tiles@[curr_node_id as int].g + STEP_COST + old(
                self,
            ).tiles@[side_node_id as int].h <= i64::MAX,
        ensures
            final(self).tiles@ == checked_tiles(
                old(self).tiles@,
                old(open_nodes)@,
                curr_node_id,
                side_node_id,
            ),
            final(open_nodes)@ == checked_open(old(open_nodes)@, side_node_id),
            *final(self) == (WorldState { tiles: final(self).tiles, ..*old(self) }),
    {
        let parent_g: i64 = self.tiles[curr_node_id].g;
        let mut better: bool = false;
        if !contains_id(open_nodes, side_node_id) {
            open_nodes.push(side_node_id);
            better = true;
        } else if parent_g + STEP_COST < self.tiles[side_node_id].g {
            better = true;
        }
        if better {
            let mut side: Tile = self.tiles[side_node_id];
            side.parent_id = curr_node_id as i32;
            side.calc_f_g(parent_g);
            self.tiles.set(side_node_id, side);
        }
    }

    /// The number of columns of the grid.
    pub fn num_x_tiles(&self) -> (n: u32)
        requires
            self.tile_size > 0,
        ensures
            n == self.cols(),
    {
        self.width / self.tile_size
    }

    /// The number of rows of the grid.
    pub fn num_y_tiles(&self) -> (n: u32)
        requires
            self.tile_size > 0,
        ensures
            n == self.rows(),
    {
        self.height / self.tile_size
    }

    /// The tile in column `x` and row `y`, to read and to change.
    pub fn get_tile_at(&mut self, x: u32, y: u32) -> (tile: &mut Tile)
        requires
            old(self).tile_size > 0,
            y * old(self).cols() + x < old(self).tiles@.len(),
            y * old(self).cols() + x <= u32::MAX,
        ensures
            *tile == old(self).tiles@[y * old(self).cols() + x],
            final(self).tiles@ == old(self).tiles@.update(
                y * old(self).cols() + x,
                *final(tile),
            ),
            *final(self) == (WorldState { tiles: final(self).tiles, ..*old(self) }),
    {
        let index: usize = self.get_tile_id_at(x, y);
        &mut self.tiles[index]
    }

    /// A copy of the tile in the column and the row that were drawn.
    pub fn get_random_tile(&self, x_draw: i32, y_draw: i32) -> (tile: Tile)
        requires
            self.tile_size > 0,
            0 <= x_draw < self.cols(),
            0 <= y_draw < self.rows(),
            y_draw * self.cols() + x_draw < self.tiles@.len(),
            y_draw * self.cols() + x_draw <= u32::MAX,
        ensures
            tile == self.tiles@[y_draw * self.cols() + x_draw],
    {
        let index: usize = self.get_tile_id_at(x_draw as u32, y_draw as u32);
        self.tiles[index]
    }

    /// The index of the tile in column `x` and row `y`.
    pub fn get_tile_id_at(&self, x: u32, y: u32) -> (index: usize)
        requires
            self.tile_size > 0,
            y * self.cols() + x <= u32::MAX,
        ensures
            index == y * self.cols() + x,
    {
        let num_tiles: u32 = self.width / self.tile_size;
        proof {
            assert(0 <= y * num_tiles) by (nonlinear_arith)
                requires
                    0 <= y,
                    0 <= num_tiles,
            ;
        }
        let index: u32 = y * num_tiles + x;
        index as usize
    }

    /// The index of the tile nearest to the pixel position (`x`, `y`).
    pub fn get_tile_id_closest_to(&self, x: i64, y: i64) -> (index: usize)
        requires
            self.tile_size > 0,
            self.closest_id(x as int, y as int) <= u32::MAX,
        ensures
            index == self.closest_id(x as int, y as int),
    {
        let x_id: u32 = nearest_cell(x, self.tile_size);
        let y_id: u32 = nearest_cell(y, self.tile_size);
        self.get_tile_id_at(x_id, y_id)
    }

    /// The index of the tile in the column and the row that were drawn.
    pub fn get_random_tile_id(&self, x_draw: i32, y_draw: i32) -> (index: usize)
        requires
            self.tile_size > 0,
            0 <= x_draw < self.cols(),
            0 <= y_draw < self.rows(),
            y_draw * self.cols() + x_draw <= u32::MAX,
        ensures
            index == y_draw * self.cols() + x_draw,
    {
        self.get_tile_id_at(x_draw as u32, y_draw as u32)
    }

    /// Takes the tiles in the cells that were drawn as start and end, and
    /// puts the player on the corner of the start tile.
    pub fn set_target_tiles(&mut self, start_x: i32, start_y: i32, end_x: i32, end_y: i32)
        requires
            old(self).has_grid(),
            0 <= start_x < old(self).cols(),
            0 <= start_y < old(self).rows(),
            0 <= end_x < old(self).cols(),
            0 <= end_y < old(self).rows(),
        ensures
            final(self).start_id == start_y * old(self).cols() + start_x,
            final(self).end_id == end_y * old(self).cols() + end_x,
            0 <= final(self).start_id < old(self).tiles@.len(),
            0 <= final(self).end_id < old(self).tiles@.len(),
            final(self).player == old(self).corner(start_x as int, start_y as int),
            *final(self) == (WorldState {
                start_id: final(self).start_id,
                end_id: final(self).end_id,
                player: final(self).player,
                ..*old(self)
            }),
    {
        proof {
            lemma_cell_index(start_x as int, start_y as int, self.cols(), self.rows());
            lemma_cell_index(end_x as int, end_y as int, self.cols(), self.rows());
        }
        self.start_id = self.get_random_tile_id(start_x, start_y) as i32;
        self.end_id = self.get_random_tile_id(end_x, end_y) as i32;
        let start: Tile = self.tiles[self.start_id as usize];
        proof {
            self.lemma_corner_fits(start_x as int, start_y as int);
        }
        self.player.pos_x = (start.x_id as i64) * (self.tile_size as i64);
        self.player.pos_y = (start.y_id as i64) * (self.tile_size as i64);
    }

    /// The reference that a tile gets to the cell in column `x` and row `y`.
    fn side_at(&self, x: i32, y: i32) -> (side: i32)
        requires
            self.tile_size > 0,
            self.cols() > 0,
            self.rows() > 0,
            self.tiles@.len() == self.cols() * self.rows(),
            self.tiles@.len() <= i32::MAX,
        ensures
            side == link_to(self.tiles@, self.cols(), self.rows(), x as int, y as int),
    {
        let num_x_tiles: u32 = self.width / self.tile_size;
        let num_y_tiles: u32 = self.height / self.tile_size;
        if 0 <= x && (x as u32) < num_x_tiles && 0 <= y && (y as u32) < num_y_tiles {
            proof {
                lemma_cell_index(x as int, y as int, self.cols(), self.rows());
            }
            let id: u32 = (y as u32) * num_x_tiles + (x as u32);
            if !self.tiles[id as usize].is_wall {
                return id as i32;
            }
        }
        NO_TILE
    }

    /// Sets the four neighbour references of every tile.
    ///
    /// A tile refers to the tile one step to the right, to the left, up and
    /// down, unless that cell is off the grid or holds a wall. Whether the
    /// tile itself is a wall plays no part: a wall refers to its passable
    /// neighbours, and no tile refers to a wall. Setting the references once
    /// more changes nothing.
    pub fn set_all_tile_sides(&mut self)
        requires
            old(self).has_grid(),
        ensures
            final(self).tiles@ == linked(old(self).tiles@, old(self).cols(), old(self).rows()),
            final(self).tiles@ == linked(final(self).tiles@, old(self).cols(), old(self).rows()),
            final(self).has_grid(),
            links_in_range(final(self).tiles@),
            links_avoid_walls(final(self).tiles@),
            *final(self) == (WorldState { tiles: final(self).tiles, ..*old(self) }),
    {
        let count: usize = self.tiles.len();
        let ghost given: Seq<Tile> = self.tiles@;
        let ghost cols: int = self.cols();
        let ghost rows: int = self.rows();
        let mut t_id: usize = 0;
        while t_id < count
            invariant
                t_id <= count,
                count == given.len(),
                self.tiles@.len() == count,
                *self == (WorldState { tiles: self.tiles, ..*old(self) }),
                cols == self.cols(),
                rows == self.rows(),
                self.tile_size > 0,
                is_grid(given, cols, rows),
                forall|k: int|
                    0 <= k < count ==> (#[trigger] self.tiles@[k]).is_wall == given[k].is_wall,
                forall|k: int|
                    0 <= k < t_id ==> self.tiles@[k] == linked_tile(given, cols, rows, k),
                forall|k: int| t_id <= k < count ==> self.tiles@[k] == given[k],
            decreases count - t_id,
        {
            let mut t: Tile = self.tiles[t_id];
            proof {
                lemma_index_cell(t_id as int, cols, rows);
                let x = t.x_id as int;
                let y = t.y_id as int;
                if x + 1 < cols {
                    lemma_cell_index(x + 1, y, cols, rows);
                }
                if x - 1 >= 0 {
                    lemma_cell_index(x - 1, y, cols, rows);
                }
                if y - 1 >= 0 {
                    lemma_cell_index(x, y - 1, cols, rows);
                }
                if y + 1 < rows {
                    lemma_cell_index(x, y + 1, cols, rows);
                }
            }
            t.right = self.side_at(t.x_id + 1, t.y_id);
            t.left = self.side_at(t.x_id - 1, t.y_id);
            t.top = self.side_at(t.x_id, t.y_id - 1);
            t.bottom = self.side_at(t.x_id, t.y_id + 1);
            self.tiles.set(t_id, t);
            t_id = t_id + 1;
        }
        proof {
            assert(self.tiles@ =~= linked(given, cols, rows));
            lemma_linked_is_grid(given, cols, rows);
            lemma_linking_twice(given, cols, rows);
        }
    }
}

} // verus!
