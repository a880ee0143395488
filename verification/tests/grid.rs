use astar_maze::grid::{generate_tiles, DRAW_SCALE, WALL_DRAW_MIN};
use astar_maze::tile::{Tile, NO_TILE};
use astar_maze::world::{nearest_cell, Draws, Position, WorldState};

fn bare_world(cols: u32, rows: u32, tile_size: u32, draws: &Vec<u32>) -> WorldState {
    WorldState {
        debug: false,
        width: cols * tile_size,
        height: rows * tile_size,
        quality: 1,
        tile_size,
        start_id: NO_TILE,
        end_id: NO_TILE,
        player: Position { pos_x: 0, pos_y: 0 },
        tiles: generate_tiles(cols * tile_size, rows * tile_size, tile_size, draws),
        recent_regen: false,
    }
}

fn sides(t: &Tile) -> (i32, i32, i32, i32) {
    (t.top, t.bottom, t.left, t.right)
}

#[test]
fn generated_tiles_know_their_place() {
    let draws: Vec<u32> = vec![0; 12];
    let tiles = generate_tiles(200, 150, 50, &draws);
    assert_eq!(tiles.len(), 12);
    for (i, t) in tiles.iter().enumerate() {
        assert_eq!(t.node_id, i);
        assert_eq!(t.x_id as usize, i % 4);
        assert_eq!(t.y_id as usize, i / 4);
        assert!(!t.is_wall);
        assert_eq!(sides(t), (NO_TILE, NO_TILE, NO_TILE, NO_TILE));
        assert_eq!((t.g, t.h, t.f, t.parent_id), (0, 0, 0, NO_TILE));
    }
    assert_eq!(tiles[7], Tile::new(3, 1, 7, false));
}

#[test]
fn one_tile_grid() {
    let tiles = generate_tiles(7, 7, 7, &vec![99]);
    assert_eq!(tiles, vec![Tile::new(0, 0, 0, true)]);
}

#[test]
fn draws_from_seventy_up_make_walls() {
    assert_eq!(WALL_DRAW_MIN, 70);
    assert_eq!(DRAW_SCALE, 100);
    let draws: Vec<u32> = vec![0, 69, 70, 71, 99, 100, u32::MAX, 30];
    let tiles = generate_tiles(80, 10, 10, &draws);
    let walls: Vec<bool> = tiles.iter().map(|t| t.is_wall).collect();
    assert_eq!(walls, vec![false, false, true, true, true, true, true, false]);
}

#[test]
fn sides_of_an_open_grid() {
    let mut w = bare_world(3, 3, 10, &vec![0; 9]);
    w.set_all_tile_sides();
    assert_eq!(sides(&w.tiles[0]), (NO_TILE, 3, NO_TILE, 1));
    assert_eq!(sides(&w.tiles[1]), (NO_TILE, 4, 0, 2));
    assert_eq!(sides(&w.tiles[2]), (NO_TILE, 5, 1, NO_TILE));
    assert_eq!(sides(&w.tiles[4]), (1, 7, 3, 5));
    assert_eq!(sides(&w.tiles[6]), (3, NO_TILE, NO_TILE, 7));
    assert_eq!(sides(&w.tiles[8]), (5, NO_TILE, 7, NO_TILE));
}

#[test]
fn no_side_leads_to_a_wall_but_walls_have_sides() {
    let mut draws: Vec<u32> = vec![0; 9];
    draws[4] = 70;
    let mut w = bare_world(3, 3, 10, &draws);
    w.set_all_tile_sides();
    assert_eq!(sides(&w.tiles[1]), (NO_TILE, NO_TILE, 0, 2));
    assert_eq!(sides(&w.tiles[3]), (0, 6, NO_TILE, NO_TILE));
    assert_eq!(sides(&w.tiles[5]), (2, 8, NO_TILE, NO_TILE));
    assert_eq!(sides(&w.tiles[7]), (NO_TILE, NO_TILE, 6, 8));
    // the wall itself refers to its four passable neighbours
    assert!(w.tiles[4].is_wall);
    assert_eq!(sides(&w.tiles[4]), (1, 7, 3, 5));
}

#[test]
fn each_side_is_one_step_away_and_passable() {
    let draws: Vec<u32> = vec![0, 80, 0, 0, 0, 0, 75, 0, 0, 0, 0, 0, 0, 90, 0, 0, 0, 0, 0, 0];
    let mut w = bare_world(5, 4, 10, &draws);
    w.set_all_tile_sides();
    for t in w.tiles.iter() {
        if t.right >= 0 {
            let n = w.tiles[t.right as usize];
            assert!(!n.is_wall);
            assert_eq!((n.x_id, n.y_id), (t.x_id + 1, t.y_id));
        }
        if t.left >= 0 {
            let n = w.tiles[t.left as usize];
            assert!(!n.is_wall);
            assert_eq!((n.x_id, n.y_id), (t.x_id - 1, t.y_id));
        }
        if t.top >= 0 {
            let n = w.tiles[t.top as usize];
            assert!(!n.is_wall);
            assert_eq!((n.x_id, n.y_id), (t.x_id, t.y_id - 1));
        }
        if t.bottom >= 0 {
            let n = w.tiles[t.bottom as usize];
            assert!(!n.is_wall);
            assert_eq!((n.x_id, n.y_id), (t.x_id, t.y_id + 1));
        }
    }
}

#[test]
fn setting_sides_twice_changes_nothing() {
    let draws: Vec<u32> = vec![0, 80, 0, 0, 0, 0, 75, 0, 0, 0, 0, 0, 0, 90, 0, 0, 0, 0, 0, 0];
    let mut w = bare_world(5, 4, 10, &draws);
    w.set_all_tile_sides();
    let once = w.tiles.clone();
    w.set_all_tile_sides();
    assert_eq!(w.tiles, once);
}

#[test]
fn setting_sides_overwrites_stale_sides() {
    let mut draws: Vec<u32> = vec![0; 4];
    draws[1] = 70;
    let mut w = bare_world(2, 2, 10, &draws);
    w.tiles[0].right = 1;
    w.tiles[0].top = 3;
    w.tiles[3].g = 5;
    w.set_all_tile_sides();
    assert_eq!(sides(&w.tiles[0]), (NO_TILE, 2, NO_TILE, NO_TILE));
    assert_eq!(w.tiles[3].g, 5);
}

#[test]
fn tile_id_counts_row_by_row() {
    let w = bare_world(4, 3, 25, &vec![0; 12]);
    assert_eq!(w.num_x_tiles(), 4);
    assert_eq!(w.num_y_tiles(), 3);
    assert_eq!(w.get_tile_id_at(0, 0), 0);
    assert_eq!(w.get_tile_id_at(3, 0), 3);
    assert_eq!(w.get_tile_id_at(0, 1), 4);
    assert_eq!(w.get_tile_id_at(3, 2), 11);
    assert_eq!(w.get_random_tile_id(3, 2), 11);
    assert_eq!(w.get_random_tile_id(0, 0), 0);
    assert_eq!(w.get_random_tile(2, 1), Tile::new(2, 1, 6, false));
}

#[test]
fn tile_at_can_be_changed() {
    let mut w = bare_world(4, 3, 25, &vec![0; 12]);
    assert_eq!(*w.get_tile_at(1, 2), Tile::new(1, 2, 9, false));
    w.get_tile_at(1, 2).is_wall = true;
    assert!(w.tiles[9].is_wall);
    assert_eq!(w.tiles[8], Tile::new(0, 2, 8, false));
}

#[test]
fn nearest_cell_rounds_up() {
    assert_eq!(nearest_cell(0, 50), 0);
    assert_eq!(nearest_cell(1, 50), 1);
    assert_eq!(nearest_cell(25, 50), 1);
    assert_eq!(nearest_cell(50, 50), 1);
    assert_eq!(nearest_cell(51, 50), 2);
    assert_eq!(nearest_cell(100, 50), 2);
    assert_eq!(nearest_cell(7, 1), 7);
    assert_eq!(nearest_cell(-1, 50), 0);
    assert_eq!(nearest_cell(-50, 50), 0);
    assert_eq!(nearest_cell(-51, 50), 0);
    assert_eq!(nearest_cell(i64::MIN, 7), 0);
    assert_eq!(nearest_cell(i64::MAX, 1), u32::MAX);
    assert_eq!(nearest_cell(u32::MAX as i64, 1), u32::MAX);
    assert_eq!(nearest_cell(i64::MAX, u32::MAX), 2_147_483_649);
}

#[test]
fn closest_tile() {
    let w = bare_world(4, 3, 50, &vec![0; 12]);
    assert_eq!(w.get_tile_id_closest_to(0, 0), 0);
    assert_eq!(w.get_tile_id_closest_to(-25, -25), 0);
    assert_eq!(w.get_tile_id_closest_to(75, -25), 2);
    assert_eq!(w.get_tile_id_closest_to(125, 75), 11);
    assert_eq!(w.get_tile_id_closest_to(100, 100), 10);
    assert_eq!(w.get_tile_id_closest_to(101, 100), 11);
}

#[test]
fn target_tiles_and_spawn() {
    let mut w = bare_world(4, 3, 50, &vec![0; 12]);
    w.set_all_tile_sides();
    w.set_target_tiles(3, 1, 0, 2);
    assert_eq!(w.start_id, 7);
    assert_eq!(w.end_id, 8);
    assert_eq!(w.player, Position { pos_x: 150, pos_y: 50 });
    w.set_target_tiles(0, 0, 0, 0);
    assert_eq!((w.start_id, w.end_id), (0, 0));
    assert_eq!(w.player, Position { pos_x: 0, pos_y: 0 });
}

#[test]
fn start_node_follows_the_player() {
    let mut w = bare_world(4, 3, 50, &vec![0; 12]);
    w.set_target_tiles(3, 1, 0, 2);
    w.set_start_node();
    assert_eq!(w.start_id, 7);
    assert_eq!(w.end_id, 8);
    w.player = Position { pos_x: 100, pos_y: 100 };
    w.set_start_node();
    assert_eq!(w.start_id, 10);
    w.player = Position { pos_x: 126, pos_y: 24 };
    w.set_start_node();
    assert_eq!(w.start_id, 3);
    w.player = Position { pos_x: -1000, pos_y: i64::MIN };
    w.set_start_node();
    assert_eq!(w.start_id, 0);
}

#[test]
fn start_node_with_tiles_of_one_pixel() {
    let mut w = bare_world(3, 3, 1, &vec![0; 9]);
    w.set_target_tiles(2, 1, 0, 0);
    assert_eq!(w.player, Position { pos_x: 2, pos_y: 1 });
    w.set_start_node();
    assert_eq!(w.start_id, 5);
}

#[test]
fn new_world() {
    let mut walls: Vec<u32> = vec![0; 864];
    walls[1] = 70;
    walls[36] = 99;
    let draws = Draws { walls, start_x: 3, start_y: 3, end_x: 17, end_y: 12 };
    let w = WorldState::new(&draws);
    assert!(!w.debug);
    assert!(!w.recent_regen);
    assert_eq!((w.width, w.height, w.quality, w.tile_size), (1800, 1200, 2, 50));
    assert_eq!(w.tiles.len(), 864);
    assert_eq!(w.start_id, 111);
    assert_eq!(w.end_id, 449);
    assert_eq!(w.player, Position { pos_x: 150, pos_y: 150 });
    assert!(w.tiles[1].is_wall);
    assert!(w.tiles[36].is_wall);
    assert_eq!(sides(&w.tiles[0]), (NO_TILE, NO_TILE, NO_TILE, NO_TILE));
    assert_eq!(sides(&w.tiles[37]), (NO_TILE, 73, NO_TILE, 38));
    assert_eq!(sides(&w.tiles[863]), (827, NO_TILE, 862, NO_TILE));
    assert_eq!((w.tiles[863].x_id, w.tiles[863].y_id, w.tiles[863].node_id), (35, 23, 863));
}

#[test]
fn reset_replaces_the_world() {
    let draws = Draws { walls: vec![0; 864], start_x: 0, start_y: 0, end_x: 35, end_y: 23 };
    let mut w = WorldState::new(&draws);
    let found = w.calc_astar();
    assert!(found.found);
    w.debug = true;
    let mut walls: Vec<u32> = vec![0; 864];
    walls[5] = 70;
    let again = Draws { walls, start_x: 35, start_y: 0, end_x: 0, end_y: 23 };
    w.reset(&again);
    assert!(w.debug);
    assert_eq!(w.tiles.len(), 864);
    assert_eq!(w.start_id, 35);
    assert_eq!(w.end_id, 828);
    assert_eq!(w.player, Position { pos_x: 1750, pos_y: 0 });
    assert!(w.tiles[5].is_wall);
    assert_eq!(sides(&w.tiles[4]), (NO_TILE, 40, 3, NO_TILE));
    for t in w.tiles.iter() {
        assert_eq!((t.g, t.h, t.f, t.parent_id), (0, 0, 0, NO_TILE));
    }
}

#[test]
fn search_on_a_new_world() {
    let draws = Draws { walls: vec![0; 864], start_x: 3, start_y: 3, end_x: 17, end_y: 12 };
    let mut w = WorldState::new(&draws);
    let outcome = w.calc_astar();
    assert!(outcome.found);
    let way = w.reconstruct_path().unwrap();
    assert_eq!(way.len(), 24);
    assert_eq!(w.tiles[449].g, 230);
    assert_eq!(way[0], 111);
    assert_eq!(way[23], 449);
}

#[test]
fn draws_fit_their_grid() {
    let draws = Draws { walls: vec![0; 6], start_x: 2, start_y: 1, end_x: 0, end_y: 0 };
    assert!(draws.fits(3, 2));
    assert!(!draws.fits(2, 3));
    assert!(!draws.fits(3, 3));
    assert!(!Draws { walls: vec![0; 6], start_x: 3, start_y: 1, end_x: 0, end_y: 0 }.fits(3, 2));
    assert!(!Draws { walls: vec![0; 6], start_x: 2, start_y: 2, end_x: 0, end_y: 0 }.fits(3, 2));
    assert!(!Draws { walls: vec![0; 6], start_x: 2, start_y: 1, end_x: -1, end_y: 0 }.fits(3, 2));
    assert!(!Draws { walls: vec![0; 6], start_x: 2, start_y: 1, end_x: 0, end_y: 2 }.fits(3, 2));
    assert!(!Draws { walls: vec![0; 5], start_x: 2, start_y: 1, end_x: 0, end_y: 0 }.fits(3, 2));
    assert!(!Draws { walls: vec![], start_x: 0, start_y: 0, end_x: 0, end_y: 0 }.fits(0, 0));
}

#[test]
fn searchable_worlds() {
    let mut w = bare_world(3, 2, 10, &vec![0; 6]);
    assert!(!w.is_searchable());
    w.start_id = 0;
    w.end_id = 5;
    assert!(w.is_searchable());
    w.set_all_tile_sides();
    assert!(w.is_searchable());
    w.end_id = 6;
    assert!(!w.is_searchable());
    w.end_id = 5;
    w.tiles[2].left = 6;
    assert!(!w.is_searchable());
    w.tiles[2].left = -7;
    assert!(w.is_searchable());
    w.tiles[4].bottom = 9;
    assert!(!w.is_searchable());
}
