//! A tile maze and the shortest-way search over it.
//!
//! The grid is a row-major array of [`tile::Tile`]s. Some tiles are walls; every
//! tile refers to its four neighbours unless the neighbour is a wall or lies
//! off the grid. The search walks those references from a start tile towards
//! an end tile and leaves, in each tile it reaches, a reference to the tile it
//! was reached from.
//!
//! Chance comes from outside: what is drawn for walls, start and end is handed
//! in as plain numbers, so that the same draws always give the same world.
//!
//! - [`tile`]: one cell, its estimate and its scores.
//! - [`grid`]: fresh tiles and neighbour references, and what holds of them.
//! - [`open_list`]: the order by score from which a search picks its next
//!   tile.
//! - [`search`]: the search as mathematics, round by round.
//! - [`trace`], [`path`], [`shortest`]: what a search leaves behind: parents
//!   that lead back to the start, a way exactly if there is one, and a
//!   shortest way where the estimates allow it.
//! - [`world`]: the world that owns the tiles, and the functions that make,
//!   link and search it.

pub mod grid;
pub mod open_list;
pub mod path;
pub mod search;
pub mod shortest;
pub mod tile;
pub mod trace;
pub mod world;
