use astar_maze::grid::generate_tiles;
use astar_maze::open_list::{contains_id, sort_by_score};
use astar_maze::tile::{Tile, NO_TILE, STEP_COST};
use astar_maze::world::{reversed, Position, SearchOutcome, WorldState};

fn world(cols: u32, rows: u32, walls: &[usize], start: i32, end: i32) -> WorldState {
    let mut draws: Vec<u32> = vec![0; (cols * rows) as usize];
    for w in walls {
        draws[*w] = 70;
    }
    let mut world = WorldState {
        debug: false,
        width: cols * 10,
        height: rows * 10,
        quality: 1,
        tile_size: 10,
        start_id: start,
        end_id: end,
        player: Position { pos_x: 0, pos_y: 0 },
        tiles: generate_tiles(cols * 10, rows * 10, 10, &draws),
        recent_regen: false,
    };
    world.set_all_tile_sides();
    world
}

fn parents(world: &WorldState) -> Vec<i32> {
    world.tiles.iter().map(|t| t.parent_id).collect()
}

fn costs(world: &WorldState) -> Vec<i64> {
    world.tiles.iter().map(|t| t.g).collect()
}

fn scores(world: &WorldState) -> Vec<i64> {
    world.tiles.iter().map(|t| t.f).collect()
}

#[test]
fn open_grid_corner_to_corner_takes_six_steps() {
    let mut w = world(4, 4, &[], 0, 15);
    let outcome = w.calc_astar();
    assert!(outcome.found);
    let way = w.reconstruct_path().unwrap();
    assert_eq!(way.len(), 7);
    assert_eq!(way[0], 0);
    assert_eq!(way[6], 15);
    assert_eq!(way, vec![0, 4, 8, 12, 13, 14, 15]);
    assert_eq!(w.tiles[15].g, 60);
    for pair in outcome.closed.windows(2) {
        assert!(w.tiles[pair[0]].f <= w.tiles[pair[1]].f);
    }
}

#[test]
fn open_grid_closed_order_and_parents() {
    let mut w = world(4, 4, &[], 0, 15);
    let outcome = w.calc_astar();
    assert_eq!(outcome.closed, vec![0, 4, 1, 8, 2, 12, 3, 13, 7, 14, 11, 5, 9, 10, 15]);
    assert_eq!(parents(&w), vec![-1, 0, 1, 2, 0, 4, 2, 3, 4, 8, 9, 7, 8, 12, 13, 14]);
    assert_eq!(costs(&w), vec![0, 10, 20, 30, 10, 20, 30, 40, 20, 30, 40, 50, 30, 40, 50, 60]);
    assert_eq!(scores(&w), vec![60; 16]);
}

#[test]
fn open_grid_backwards() {
    let mut w = world(4, 4, &[], 15, 0);
    let outcome = w.calc_astar();
    assert!(outcome.found);
    assert_eq!(outcome.closed, vec![15, 11, 14, 7, 13, 3, 12, 2, 8, 1, 4, 10, 6, 5, 0]);
    assert_eq!(w.reconstruct_path(), Some(vec![15, 11, 7, 3, 2, 1, 0]));
}

#[test]
fn walled_in_end_is_not_found() {
    let mut w = world(3, 3, &[1, 3, 5, 7], 0, 4);
    let end = w.tiles[4];
    assert_eq!((end.top, end.bottom, end.left, end.right), (NO_TILE, NO_TILE, NO_TILE, NO_TILE));
    let outcome = w.calc_astar();
    assert!(!outcome.found);
    assert!(!outcome.closed.contains(&4));
    assert_eq!(outcome.closed, vec![0]);
    assert_eq!(w.reconstruct_path(), None);
}

#[test]
fn wall_between_start_and_end() {
    let mut w = world(3, 1, &[1], 0, 2);
    let outcome = w.calc_astar();
    assert_eq!(outcome, SearchOutcome { found: false, closed: vec![0] });
    assert_eq!(parents(&w), vec![-1, -1, -1]);
    assert_eq!(scores(&w), vec![20, 10, 0]);
}

#[test]
fn search_from_a_wall_passes_through() {
    let mut w = world(3, 3, &[1, 3, 5, 7], 1, 4);
    assert!(w.tiles[1].is_wall);
    assert_eq!(w.tiles[1].bottom, 4);
    let outcome = w.calc_astar();
    assert!(outcome.found);
    assert_eq!(outcome.closed, vec![1, 4]);
    assert_eq!(w.reconstruct_path(), Some(vec![1, 4]));
}

#[test]
fn start_is_end() {
    let mut w = world(3, 3, &[], 4, 4);
    let outcome = w.calc_astar();
    assert!(outcome.found);
    assert_eq!(outcome.closed, vec![4]);
    assert_eq!(parents(&w), vec![-1, 4, -1, 4, -1, 4, -1, 4, -1]);
    assert_eq!(costs(&w), vec![0, 10, 0, 10, 0, 10, 0, 10, 0]);
    assert_eq!(scores(&w), vec![20, 20, 20, 20, 0, 20, 20, 20, 20]);
    assert_eq!(w.reconstruct_path(), Some(vec![4]));
}

#[test]
fn second_search_repeats_the_first() {
    let mut w = world(5, 5, &[0, 5, 7, 14, 17, 18, 19, 20], 2, 24);
    let first = w.calc_astar();
    let first_parents = parents(&w);
    let first_tiles = w.tiles.clone();
    let second = w.calc_astar();
    assert_eq!(first.closed, second.closed);
    assert_eq!(first.found, second.found);
    assert_eq!(first_parents, parents(&w));
    assert_eq!(first_tiles, w.tiles);
}

#[test]
fn cheaper_way_to_an_open_tile_replaces_its_parent() {
    // Tile 11 is first reached from tile 12, the long way round the wall at 7,
    // at a cost of 50. Tile 6 is closed later and reaches it at a cost of 30.
    let mut w = world(5, 5, &[0, 5, 7, 14, 17, 18, 19, 20], 2, 24);
    let outcome = w.calc_astar();
    assert!(outcome.found);
    assert_eq!(
        outcome.closed,
        vec![2, 3, 4, 8, 9, 13, 1, 12, 6, 11, 16, 21, 22, 23, 24]
    );
    // The shortest way has eight steps. With parents that never change once a
    // tile is open, the way found would have ten.
    assert_eq!(w.reconstruct_path(), Some(vec![2, 1, 6, 11, 16, 21, 22, 23, 24]));
    assert_eq!(w.tiles[24].g, 8 * STEP_COST);
    assert_eq!(w.tiles[11].parent_id, 6);
    assert_eq!(w.tiles[11].g, 30);
    assert_eq!(
        parents(&w),
        vec![
            -1, 2, -1, 2, 3, -1, 1, -1, 3, 4, 11, 6, 13, 8, -1, 16, 11, -1, -1, -1, -1, 16, 21,
            22, 23
        ]
    );
}

#[test]
fn every_score_is_cost_plus_estimate() {
    let mut w = world(6, 6, &[], 0, 35);
    let outcome = w.calc_astar();
    assert!(outcome.found);
    for t in w.tiles.iter() {
        assert_eq!(t.f, t.g + t.h);
    }
    assert_eq!(
        w.reconstruct_path(),
        Some(vec![0, 6, 12, 18, 24, 25, 26, 27, 28, 34, 35])
    );
    assert_eq!(
        outcome.closed,
        vec![
            0, 6, 1, 12, 2, 18, 3, 24, 9, 30, 10, 31, 16, 32, 17, 7, 13, 8, 19, 4, 25, 26, 5, 27,
            20, 21, 28, 14, 34, 29, 35
        ]
    );
}

#[test]
fn way_found_stays_in_closed_tiles() {
    let mut w = world(5, 5, &[0, 5, 7, 14, 17, 18, 19, 20], 2, 24);
    let outcome = w.calc_astar();
    let way = w.reconstruct_path().unwrap();
    assert_eq!(way[0], 2);
    assert_eq!(way[way.len() - 1], 24);
    for id in way.iter() {
        assert!(outcome.closed.contains(id));
    }
    for pair in way.windows(2) {
        let from = w.tiles[pair[0]];
        let to = pair[1] as i32;
        assert!(from.top == to || from.bottom == to || from.left == to || from.right == to);
    }
}

#[test]
fn no_way_means_everything_reachable_is_closed() {
    // The right column is cut off by a wall column.
    let mut w = world(3, 2, &[1, 4], 0, 5);
    let outcome = w.calc_astar();
    assert!(!outcome.found);
    assert_eq!(outcome.closed, vec![0, 3]);
    assert_eq!(w.reconstruct_path(), None);
}

#[test]
fn check_node_opens_a_new_tile() {
    let mut w = world(2, 2, &[], 0, 3);
    w.tiles[0].g = 30;
    w.tiles[1].h = 40;
    let mut open: Vec<usize> = vec![2];
    w.check_node(&mut open, 0, 1);
    assert_eq!(open, vec![2, 1]);
    assert_eq!(w.tiles[1].parent_id, 0);
    assert_eq!(w.tiles[1].g, 40);
    assert_eq!(w.tiles[1].f, 80);
    assert_eq!(w.tiles[1].h, 40);
}

#[test]
fn check_node_takes_the_cheaper_parent() {
    let mut w = world(2, 2, &[], 0, 3);
    w.tiles[0].g = 10;
    w.tiles[1].g = 50;
    w.tiles[1].h = 20;
    w.tiles[1].f = 70;
    w.tiles[1].parent_id = 3;
    let mut open: Vec<usize> = vec![1, 2];
    w.check_node(&mut open, 0, 1);
    assert_eq!(open, vec![1, 2]);
    assert_eq!(w.tiles[1].parent_id, 0);
    assert_eq!(w.tiles[1].g, 20);
    assert_eq!(w.tiles[1].f, 40);
}

#[test]
fn check_node_keeps_a_parent_that_is_as_cheap() {
    let mut w = world(2, 2, &[], 0, 3);
    w.tiles[0].g = 10;
    w.tiles[1].g = 20;
    w.tiles[1].h = 20;
    w.tiles[1].f = 40;
    w.tiles[1].parent_id = 3;
    let before = w.tiles.clone();
    let mut open: Vec<usize> = vec![1, 2];
    w.check_node(&mut open, 0, 1);
    assert_eq!(open, vec![1, 2]);
    assert_eq!(w.tiles, before);
}

#[test]
fn reset_clears_a_tile() {
    let mut t = Tile::new(1, 2, 9, false);
    t.g = 70;
    t.f = 90;
    t.parent_id = 5;
    t.top = 5;
    let end = Tile::new(4, 0, 4, false);
    t.reset(&end);
    assert_eq!(t.g, 0);
    assert_eq!(t.h, 50);
    assert_eq!(t.f, 50);
    assert_eq!(t.parent_id, NO_TILE);
    assert_eq!(t.top, 5);
    assert_eq!((t.x_id, t.y_id, t.node_id, t.is_wall), (1, 2, 9, false));
}

#[test]
fn reset_estimate_spans_the_whole_range() {
    let mut t = Tile::new(i32::MIN, i32::MAX, 0, false);
    let end = Tile::new(i32::MAX, i32::MIN, 1, false);
    t.reset(&end);
    assert_eq!(t.h, 85_899_345_900);
    assert_eq!(t.f, 85_899_345_900);
}

#[test]
fn calc_f_g_adds_one_step() {
    let mut t = Tile::new(0, 0, 0, false);
    t.h = 30;
    t.calc_f_g(20);
    assert_eq!(t.g, 30);
    assert_eq!(t.f, 60);
    assert_eq!(t.h, 30);
    assert_eq!(t.parent_id, NO_TILE);
}

#[test]
fn default_tile() {
    let t = Tile::default();
    assert_eq!(
        t,
        Tile {
            node_id: 0,
            x_id: 0,
            y_id: 0,
            is_wall: false,
            top: -1,
            bottom: -1,
            left: -1,
            right: -1,
            g: 0,
            h: 0,
            f: 0,
            parent_id: -1,
        }
    );
    assert_eq!(t, Tile::new(0, 0, 0, false));
}

#[test]
fn sort_is_stable() {
    let mut w = world(3, 2, &[], 0, 5);
    let fs: [i64; 6] = [30, 10, 30, 10, 20, 10];
    for (i, f) in fs.iter().enumerate() {
        w.tiles[i].f = *f;
    }
    let mut open: Vec<usize> = vec![0, 1, 2, 3, 4, 5];
    sort_by_score(&mut open, &w.tiles);
    assert_eq!(open, vec![1, 3, 5, 4, 0, 2]);
    let mut open: Vec<usize> = vec![5, 2, 4, 0, 3, 1];
    sort_by_score(&mut open, &w.tiles);
    assert_eq!(open, vec![5, 3, 1, 4, 2, 0]);
    let mut none: Vec<usize> = vec![];
    sort_by_score(&mut none, &w.tiles);
    assert_eq!(none, Vec::<usize>::new());
}

#[test]
fn contains_id_finds_what_is_there() {
    let ids: Vec<usize> = vec![4, 2, 9];
    assert!(contains_id(&ids, 4));
    assert!(contains_id(&ids, 9));
    assert!(!contains_id(&ids, 3));
    assert!(!contains_id(&Vec::new(), 0));
}

#[test]
fn reversed_turns_a_list_round() {
    assert_eq!(reversed(&vec![1, 2, 3]), vec![3, 2, 1]);
    assert_eq!(reversed(&vec![]), Vec::<usize>::new());
}

#[test]
fn path_needs_parents_that_lead_to_the_start() {
    let mut w = world(2, 2, &[], 0, 3);
    assert_eq!(w.reconstruct_path(), None);
    w.tiles[3].parent_id = 1;
    w.tiles[1].parent_id = 0;
    assert_eq!(w.reconstruct_path(), Some(vec![0, 1, 3]));
    // parents that go round in a circle never meet the start
    w.tiles[1].parent_id = 3;
    assert_eq!(w.reconstruct_path(), None);
    // an end that is no tile has no way
    w.end_id = 4;
    assert_eq!(w.reconstruct_path(), None);
    w.end_id = -1;
    assert_eq!(w.reconstruct_path(), None);
}

#[test]
fn path_may_take_as_many_steps_as_there_are_tiles_but_one() {
    let mut w = world(4, 1, &[], 0, 3);
    w.tiles[3].parent_id = 2;
    w.tiles[2].parent_id = 1;
    w.tiles[1].parent_id = 0;
    assert_eq!(w.reconstruct_path(), Some(vec![0, 1, 2, 3]));
}

fn next_draw(seed: &mut u64) -> u32 {
    *seed = seed.wrapping_mul(6364136223846793005).wrapping_add(1442695040888963407);
    ((*seed >> 33) % 100) as u32
}

fn drawn_world(cols: u32, rows: u32, seed: &mut u64) -> WorldState {
    let count = (cols * rows) as usize;
    let draws: Vec<u32> = (0..count).map(|_| next_draw(seed)).collect();
    let mut w = WorldState {
        debug: false,
        width: cols * 10,
        height: rows * 10,
        quality: 1,
        tile_size: 10,
        start_id: 0,
        end_id: 0,
        player: Position { pos_x: 0, pos_y: 0 },
        tiles: generate_tiles(cols * 10, rows * 10, 10, &draws),
        recent_regen: false,
    };
    w.set_all_tile_sides();
    w.start_id = (next_draw(seed) as usize % count) as i32;
    w.end_id = (next_draw(seed) as usize % count) as i32;
    w
}

fn steps_by_breadth(w: &WorldState) -> Option<usize> {
    let start = w.start_id as usize;
    let end = w.end_id as usize;
    let mut steps: Vec<Option<usize>> = vec![None; w.tiles.len()];
    steps[start] = Some(0);
    let mut reached: Vec<usize> = vec![start];
    let mut at = 0;
    while at < reached.len() {
        let id = reached[at];
        at += 1;
        let t = w.tiles[id];
        for side in [t.top, t.bottom, t.left, t.right] {
            if side >= 0 && steps[side as usize].is_none() {
                steps[side as usize] = Some(steps[id].unwrap() + 1);
                reached.push(side as usize);
            }
        }
    }
    steps[end]
}

#[test]
fn found_way_is_a_shortest_way() {
    let mut seed: u64 = 7;
    let mut found = 0;
    let mut lost = 0;
    for round in 0..300u32 {
        let mut w = drawn_world(2 + round % 7, 1 + (round / 7) % 6, &mut seed);
        let outcome = w.calc_astar();
        let shortest = steps_by_breadth(&w);
        assert_eq!(outcome.found, shortest.is_some());
        assert_eq!(outcome.found, outcome.closed.contains(&(w.end_id as usize)));
        match shortest {
            Some(steps) => {
                let way = w.reconstruct_path().unwrap();
                assert_eq!(way.len(), steps + 1);
                assert_eq!(w.tiles[w.end_id as usize].g, STEP_COST * steps as i64);
                found += 1;
            }
            None => {
                assert_eq!(w.reconstruct_path(), None);
                lost += 1;
            }
        }
        for pair in outcome.closed.windows(2) {
            assert!(w.tiles[pair[0]].f <= w.tiles[pair[1]].f);
        }
        for t in w.tiles.iter() {
            assert_eq!(t.f, t.g + t.h);
        }
    }
    assert!(found > 50);
    assert!(lost > 50);
}

#[test]
fn second_search_repeats_the_first_on_drawn_worlds() {
    let mut seed: u64 = 11;
    for round in 0..100u32 {
        let mut w = drawn_world(3 + round % 5, 2 + (round / 5) % 5, &mut seed);
        let first = w.calc_astar();
        let tiles = w.tiles.clone();
        let second = w.calc_astar();
        assert_eq!(first, second);
        assert_eq!(tiles, w.tiles);
    }
}
