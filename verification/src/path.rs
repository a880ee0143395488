//! Ways through the tiles: the way that the parents describe, the ways that
//! the neighbour references allow, and how a search relates the two.

use crate::grid::links_avoid_walls;
use crate::search::{
    cleared_all, lemma_outcome_finished, outcome, same_cells, searchable, start_state,
    steady, Search,
};
use crate::tile::{Tile, STEP_COST};
use crate::trace::{
    fenced, has_parent_before, lemma_outcome_rooted, listed, reached_via, rooted, sides_listed,
};
use vstd::prelude::*;

verus! {

/// The way from tile `start` to tile `id` that the parents describe, found by
/// going from `id` to its parent, to the parent's parent and so on, for at
/// most `steps` steps. There is none if a parent is no tile before `start`
/// is met, or if `start` is more than `steps` steps away.
pub open spec fn way_back(tiles: Seq<Tile>, start: int, id: int, steps: nat) -> Option<Seq<usize>>
    decreases steps,
{
    if id < 0 || id >= tiles.len() {
        None
    } else if id == start {
        Some(seq![id as usize])
    } else if steps == 0 {
        None
    } else {
        match way_back(tiles, start, tiles[id].parent_id as int, (steps - 1) as nat) {
            Some(w) => Some(w.push(id as usize)),
            None => None,
        }
    }
}

/// The way from `start` to `end` that the parents describe, first tile first.
/// A way that meets no tile twice has no more steps than there are tiles.
pub open spec fn path(tiles: Seq<Tile>, start: int, end: int) -> Option<Seq<usize>> {
    way_back(tiles, start, end, tiles.len())
}

/// Whether `w` is a way along the neighbour references: it holds a tile, and
/// each of its tiles refers to the next.
pub open spec fn is_way(tiles: Seq<Tile>, w: Seq<usize>) -> bool {
    &&& w.len() > 0
    &&& forall|k: int| 0 <= k < w.len() ==> #[trigger] w[k] < tiles.len()
    &&& forall|k: int|
        0 <= k < w.len() - 1 ==> tiles[#[trigger] w[k] as int].refers_to(w[k + 1] as int)
}

/// Whether the neighbour references lead from tile `from` to tile `to`.
pub open spec fn reachable(tiles: Seq<Tile>, from: usize, to: usize) -> bool {
    exists|w: Seq<usize>| is_way(tiles, w) && w[0] == from && #[trigger] w.last() == to
}

/// From each closed tile the parents lead back to the start, over closed
/// tiles only and along neighbour references, and the tile's cost is one
/// step's cost for each step of that way.
pub proof fn lemma_way_back_from_closed(s: Search, start: usize, k: int, steps: nat)
    requires
        steady(s),
        rooted(s, start),
        0 <= k < s.closed.len(),
        steps >= k,
    ensures
        way_back(s.tiles, start as int, s.closed[k] as int, steps) is Some,
        ({
            let w = way_back(s.tiles, start as int, s.closed[k] as int, steps).unwrap();
            &&& is_way(s.tiles, w)
            &&& w[0] == start
            &&& w.last() == s.closed[k]
            &&& w.len() <= k + 1
            &&& forall|i: int| 0 <= i < w.len() ==> s.closed.contains(#[trigger] w[i])
            &&& s.tiles[s.closed[k] as int].g == STEP_COST * (w.len() - 1)
        }),
    decreases k,
{
    let id = s.closed[k];
    assert(s.closed.contains(s.closed[0]));
    if id == start {
        let w = seq![start];
        assert(w[0] == start);
    } else {
        assert(has_parent_before(s, k));
        let j = choose|j: int| j < k && reached_via(s, s.closed[k], j);
        lemma_way_back_from_closed(s, start, j, (steps - 1) as nat);
        let before = way_back(
            s.tiles,
            start as int,
            s.closed[j] as int,
            (steps - 1) as nat,
        ).unwrap();
        let w = before.push(id);
        assert(way_back(s.tiles, start as int, id as int, steps) == Some(w));
        assert forall|i: int|
            0 <= i < w.len() - 1 implies s.tiles[#[trigger] w[i] as int].refers_to(
            w[i + 1] as int,
        ) by {
            if i < before.len() - 1 {
                assert(before[i] == w[i] && before[i + 1] == w[i + 1]);
            } else {
                assert(w[i] == before.last());
            }
        }
        assert forall|i: int| 0 <= i < w.len() implies s.closed.contains(#[trigger] w[i]) by {
            if i < before.len() {
                assert(before[i] == w[i]);
            } else {
                assert(s.closed[k] == w[i]);
            }
        }
        assert forall|i: int| 0 <= i < w.len() implies #[trigger] w[i] < s.tiles.len() by {
            assert(s.closed.contains(w[i]));
        }
    }
}

/// Once no tile is open, a way that begins at a closed tile never leaves the
/// closed tiles.
pub proof fn lemma_ways_stay_closed(s: Search, w: Seq<usize>, k: int)
    requires
        steady(s),
        fenced(s, s.closed.len() as int),
        s.open.len() == 0,
        is_way(s.tiles, w),
        s.closed.contains(w[0]),
        0 <= k < w.len(),
    ensures
        s.closed.contains(w[k]),
    decreases k,
{
    if k > 0 {
        lemma_ways_stay_closed(s, w, k - 1);
        let m = choose|m: int| 0 <= m < s.closed.len() && s.closed[m] == w[k - 1];
        let t = s.tiles[s.closed[m] as int];
        assert(sides_listed(s, t));
        assert(s.tiles[w[k - 1] as int].refers_to(w[k] as int));
        assert(w[k] < s.tiles.len());
        let side = w[k] as i32;
        assert(listed(s, side));
        if s.open.contains(w[k]) {
            assert(s.open.len() > 0);
        }
    }
}

/// The ways along the neighbour references are the same before and after a
/// search.
pub proof fn lemma_same_ways(now: Seq<Tile>, given: Seq<Tile>, w: Seq<usize>)
    requires
        same_cells(now, given),
    ensures
        is_way(now, w) == is_way(given, w),
{
    if is_way(now, w) {
        assert forall|k: int| 0 <= k < w.len() - 1 implies given[#[trigger] w[k] as int].refers_to(
            w[k + 1] as int,
        ) by {
            assert(now[w[k] as int].refers_to(w[k + 1] as int));
            assert(now[w[k] as int].same_cell(given[w[k] as int]));
        }
    }
    if is_way(given, w) {
        assert forall|k: int| 0 <= k < w.len() - 1 implies now[#[trigger] w[k] as int].refers_to(
            w[k + 1] as int,
        ) by {
            assert(given[w[k] as int].refers_to(w[k + 1] as int));
            assert(now[w[k] as int].same_cell(given[w[k] as int]));
        }
    }
}

/// A search that closes the goal leaves a way from the start to the goal in
/// the parents.
///
/// Going from the goal to its parent, to the parent's parent and so on meets
/// the start after fewer steps than the search closed tiles. Every tile on
/// that way is closed, each refers to the next, and the cost written in the
/// goal is one step's cost for each step of the way.
pub proof fn lemma_found_way(tiles: Seq<Tile>, start: usize, end: usize)
    requires
        searchable(tiles, start as int, end as int),
        outcome(tiles, start, end).closed.contains(end),
    ensures
        path(outcome(tiles, start, end).tiles, start as int, end as int) is Some,
        ({
            let found = outcome(tiles, start, end);
            let w = path(found.tiles, start as int, end as int).unwrap();
            &&& is_way(tiles, w)
            &&& w[0] == start
            &&& w.last() == end
            &&& w.len() <= found.closed.len()
            &&& forall|i: int| 0 <= i < w.len() ==> found.closed.contains(#[trigger] w[i])
            &&& found.tiles[end as int].g == STEP_COST * (w.len() - 1)
        }),
{
    let found = outcome(tiles, start, end);
    lemma_outcome_finished(tiles, start, end);
    lemma_outcome_rooted(tiles, start, end);
    let k = choose|k: int| 0 <= k < found.closed.len() && found.closed[k] == end;
    crate::search::lemma_distinct_ids_fit(found.closed, found.tiles.len());
    lemma_way_back_from_closed(found, start, k, tiles.len());
    let w = path(found.tiles, start as int, end as int).unwrap();
    lemma_same_ways(found.tiles, tiles, w);
}

/// A search that ends without closing the goal shows that the neighbour
/// references do not lead from the start to the goal: the open list is
/// empty then, and every tile that the references lead to from the start is
/// closed.
pub proof fn lemma_no_way(tiles: Seq<Tile>, start: usize, end: usize)
    requires
        searchable(tiles, start as int, end as int),
        !outcome(tiles, start, end).closed.contains(end),
    ensures
        outcome(tiles, start, end).open.len() == 0,
        !reachable(tiles, start, end),
        forall|id: usize|
            reachable(tiles, start, id) ==> outcome(tiles, start, end).closed.contains(id),
{
    let last = outcome(tiles, start, end);
    lemma_outcome_finished(tiles, start, end);
    lemma_outcome_rooted(tiles, start, end);
    assert(last.closed.len() > 0);
    assert(last.closed.contains(last.closed[0]));
    assert forall|id: usize| reachable(tiles, start, id) implies last.closed.contains(id) by {
        let w = choose|w: Seq<usize>|
            is_way(tiles, w) && w[0] == start && #[trigger] w.last() == id;
        lemma_same_ways(last.tiles, tiles, w);
        lemma_ways_stay_closed(last, w, w.len() - 1);
    }
}

/// A search closes the goal exactly if the neighbour references lead from
/// the start to the goal.
pub proof fn lemma_found_iff_reachable(tiles: Seq<Tile>, start: usize, end: usize)
    requires
        searchable(tiles, start as int, end as int),
    ensures
        outcome(tiles, start, end).closed.contains(end) <==> reachable(tiles, start, end),
{
    if outcome(tiles, start, end).closed.contains(end) {
        lemma_found_way(tiles, start, end);
        let w = path(outcome(tiles, start, end).tiles, start as int, end as int).unwrap();
        assert(is_way(tiles, w) && w[0] == start && w.last() == end);
    } else {
        lemma_no_way(tiles, start, end);
    }
}

/// After a search the score of every tile is its cost plus its estimate.
pub proof fn lemma_scores_add_up(tiles: Seq<Tile>, start: usize, end: usize)
    requires
        searchable(tiles, start as int, end as int),
    ensures
        forall|i: int|
            0 <= i < tiles.len() ==> (#[trigger] outcome(tiles, start, end).tiles[i]).f == outcome(
                tiles,
                start,
                end,
            ).tiles[i].g + outcome(tiles, start, end).tiles[i].h,
{
    lemma_outcome_finished(tiles, start, end);
    lemma_outcome_rooted(tiles, start, end);
}

/// Where no reference leads to a wall, a search closes no wall, but for the
/// start if that is one.
pub proof fn lemma_closed_are_passable(tiles: Seq<Tile>, start: usize, end: usize, k: int)
    requires
        searchable(tiles, start as int, end as int),
        links_avoid_walls(tiles),
        0 < k < outcome(tiles, start, end).closed.len(),
    ensures
        outcome(tiles, start, end).closed[k] < tiles.len(),
        !tiles[outcome(tiles, start, end).closed[k] as int].is_wall,
{
    let last = outcome(tiles, start, end);
    lemma_outcome_finished(tiles, start, end);
    lemma_outcome_rooted(tiles, start, end);
    assert(has_parent_before(last, k));
    let j = choose|j: int| j < k && reached_via(last, last.closed[k], j);
    let from = last.closed[j];
    let id = last.closed[k];
    assert(last.tiles[from as int].same_cell(tiles[from as int]));
    assert(last.tiles[id as int].same_cell(tiles[id as int]));
    assert(tiles[from as int].refers_to(id as int));
}

/// A second search over the tiles that a search left behind ends as the
/// first did: same closed tiles in the same order, same parents, same
/// scores.
pub proof fn lemma_search_repeats(tiles: Seq<Tile>, start: usize, end: usize)
    requires
        searchable(tiles, start as int, end as int),
    ensures
        searchable(outcome(tiles, start, end).tiles, start as int, end as int),
        outcome(outcome(tiles, start, end).tiles, start, end) == outcome(tiles, start, end),
{
    let first = outcome(tiles, start, end);
    lemma_outcome_finished(tiles, start, end);
    assert(cleared_all(first.tiles, end as int) =~= cleared_all(tiles, end as int)) by {
        assert forall|i: int| 0 <= i < tiles.len() implies first.tiles[i].cleared(
            first.tiles[end as int],
        ) == tiles[i].cleared(tiles[end as int]) by {
            assert(first.tiles[i].same_cell(tiles[i]));
            assert(first.tiles[end as int].same_cell(tiles[end as int]));
        }
    }
    assert(start_state(first.tiles, start, end) == start_state(tiles, start, end));
}

} // verus!
