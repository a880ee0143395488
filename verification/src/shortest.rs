//! Why the way that a search finds is a shortest way.
//!
//! This needs estimates that no single step can beat: where a tile refers to
//! another, its estimate is at most one step's cost above the other's. The
//! estimates of a grid with set neighbour references are such. Then the
//! scores of the closed tiles never fall from one round to the next, and the
//! cost written in a closed tile is the cost of a shortest way to it.

use crate::grid::{is_grid, lemma_cell_index, lemma_index_cell, linked};
use crate::path::{is_way, lemma_found_way, lemma_same_ways, path};
use crate::search::{
    cleared_all, expand, finished, forward_round, lemma_distinct_ids_fit, lemma_expand_steady,
    lemma_next_tile_is_first_lowest, lemma_outcome_finished, lemma_popped_steady,
    lemma_relax_steady, lemma_start_steady, next_tile, outcome, popped, relax, run, same_cells,
    searchable, start_state, steady, Search,
};
use crate::tile::{Tile, STEP_COST};
use crate::trace::{
    fenced, lemma_expand_rooted, lemma_popped_rooted, lemma_relax_rooted, lemma_start_rooted,
    listed, rooted, sides_listed,
};
use vstd::prelude::*;

verus! {

/// Whether no step beats the estimates: where a tile refers to another, its
/// estimate is at most one step's cost above the other's.
pub open spec fn even_estimates(tiles: Seq<Tile>) -> bool {
    forall|i: int, to: int|
        0 <= i < tiles.len() && 0 <= to < tiles.len() && #[trigger] tiles[i].refers_to(to)
            ==> tiles[i].h <= STEP_COST + tiles[to].h
}

/// What a way costs: one step's cost for each step.
pub open spec fn way_cost(w: Seq<usize>) -> int {
    STEP_COST * (w.len() - 1)
}

/// Whether `w` is a way along the neighbour references from tile `from` to
/// tile `to`.
pub open spec fn leads(tiles: Seq<Tile>, w: Seq<usize>, from: usize, to: usize) -> bool {
    &&& is_way(tiles, w)
    &&& w[0] == from
    &&& w.last() == to
}

/// What holds of the costs between any two rounds of a search with even
/// estimates, and within a round: no open tile has a score below that of the
/// tile closed last, the scores of the closed tiles never fall, an open tile
/// that one of the first `upto` closed tiles refers to costs at most one step
/// more than that tile, and no way to a closed tile costs less than the cost
/// written in it.
#[verifier::opaque]
pub open spec fn tight(s: Search, start: usize, upto: int) -> bool {
    &&& even_estimates(s.tiles)
    &&& s.closed.len() > 0 ==> forall|m: int|
        0 <= m < s.open.len() ==> s.tiles[s.closed.last() as int].f
            <= s.tiles[#[trigger] s.open[m] as int].f
    &&& forall|j: int, k: int|
        0 <= j <= k < s.closed.len() ==> s.tiles[#[trigger] s.closed[j] as int].f
            <= s.tiles[#[trigger] s.closed[k] as int].f
    &&& forall|k: int, to: int|
        0 <= k < upto && 0 <= to < s.tiles.len()
            && #[trigger] s.tiles[s.closed[k] as int].refers_to(to)
            && s.open.contains(to as usize)
            ==> s.tiles[to].g <= s.tiles[s.closed[k] as int].g + STEP_COST
    &&& forall|k: int, w: Seq<usize>|
        0 <= k < s.closed.len() && #[trigger] leads(s.tiles, w, start, s.closed[k])
            ==> s.tiles[s.closed[k] as int].g <= way_cost(w)
}

/// Whether the tile that the reference `side` leads to, if it is open, costs
/// at most one step more than the tile `current`.
pub open spec fn cheap_side(s: Search, current: usize, side: i32) -> bool {
    side >= 0 && s.open.contains(side as usize)
        ==> s.tiles[side as int].g <= s.tiles[current as int].g + STEP_COST
}

/// In a grid with set neighbour references no step beats the estimates.
pub proof fn lemma_grid_estimates_even(tiles: Seq<Tile>, cols: int, rows: int, end: int)
    requires
        is_grid(tiles, cols, rows),
        tiles == linked(tiles, cols, rows),
        0 <= end < tiles.len(),
    ensures
        even_estimates(cleared_all(tiles, end)),
{
    let all = cleared_all(tiles, end);
    let goal = tiles[end];
    assert forall|i: int, to: int|
        0 <= i < all.len() && 0 <= to < all.len() && #[trigger] all[i].refers_to(to) implies
        all[i].h <= STEP_COST + all[to].h by {
        let t = tiles[i];
        assert(t == crate::grid::linked_tile(tiles, cols, rows, i));
        lemma_index_cell(i, cols, rows);
        lemma_index_cell(to, cols, rows);
        lemma_index_cell(end, cols, rows);
        let x = t.x_id as int;
        let y = t.y_id as int;
        if x + 1 < cols {
            lemma_cell_index(x + 1, y, cols, rows);
        }
        if x - 1 >= 0 {
            lemma_cell_index(x - 1, y, cols, rows);
        }
        if y - 1 >= 0 {
            lemma_cell_index(x, y - 1, cols, rows);
        }
        if y + 1 < rows {
            lemma_cell_index(x, y + 1, cols, rows);
        }
        crate::search::lemma_estimate_bounds(tiles[i], goal);
        crate::search::lemma_estimate_bounds(tiles[to], goal);
    }
}

/// Along a way the estimate falls by at most one step's cost for each step.
pub proof fn lemma_estimates_along(tiles: Seq<Tile>, w: Seq<usize>, i: int, j: int)
    requires
        even_estimates(tiles),
        is_way(tiles, w),
        0 <= i <= j < w.len(),
    ensures
        tiles[w[i] as int].h <= STEP_COST * (j - i) + tiles[w[j] as int].h,
    decreases j - i,
{
    if i < j {
        lemma_estimates_along(tiles, w, i + 1, j);
        assert(tiles[w[i] as int].refers_to(w[i + 1] as int));
    }
}

/// The first steps of a way are a way.
pub proof fn lemma_way_front(tiles: Seq<Tile>, w: Seq<usize>, m: int)
    requires
        is_way(tiles, w),
        0 <= m < w.len(),
    ensures
        leads(tiles, w.subrange(0, m + 1), w[0], w[m]),
        way_cost(w.subrange(0, m + 1)) == STEP_COST * m,
{
    let front = w.subrange(0, m + 1);
    assert forall|k: int| 0 <= k < front.len() implies #[trigger] front[k] < tiles.len() by {
        assert(front[k] == w[k]);
    }
    assert forall|k: int|
        0 <= k < front.len() - 1 implies tiles[#[trigger] front[k] as int].refers_to(
        front[k + 1] as int,
    ) by {
        assert(front[k] == w[k] && front[k + 1] == w[k + 1]);
    }
}

/// On a way that begins at a closed tile, the place of the first tile up to
/// place `j` that is not closed, or `j + 1` if all of them are closed.
pub proof fn lemma_first_not_closed(closed: Seq<usize>, w: Seq<usize>, j: int) -> (i: int)
    requires
        0 <= j < w.len(),
        closed.contains(w[0]),
    ensures
        0 < i <= j + 1,
        i <= j ==> !closed.contains(w[i]),
        forall|m: int| 0 <= m < i ==> closed.contains(#[trigger] w[m]),
    decreases j,
{
    if j == 0 {
        1
    } else {
        let before = lemma_first_not_closed(closed, w, j - 1);
        if before <= j - 1 {
            before
        } else if closed.contains(w[j]) {
            j + 1
        } else {
            j
        }
    }
}

/// No way to the tile that the next round closes costs less than the cost
/// written in that tile.
pub proof fn lemma_next_tile_cost(s: Search, start: usize, w: Seq<usize>)
    requires
        steady(s),
        rooted(s, start),
        fenced(s, s.closed.len() as int),
        tight(s, start, s.closed.len() as int),
        s.open.len() > 0,
        leads(s.tiles, w, start, next_tile(s)),
    ensures
        s.tiles[next_tile(s) as int].g <= way_cost(w),
{
    reveal(tight);
    let u = next_tile(s);
    let n = s.closed.len() as int;
    let last = w.len() - 1;
    lemma_popped_steady(s);
    lemma_next_tile_is_first_lowest(s);
    assert(!s.closed.contains(u));
    if u == start {
    } else {
        assert(n > 0) by {
            if n == 0 {
                assert(s.open[0] == start);
                let k = choose|k: int| 0 <= k < s.open.len() && s.open[k] == u;
                assert(s.open[k] == start);
            }
        }
        assert(s.closed.contains(s.closed[0]));
        let i = lemma_first_not_closed(s.closed, w, last);
        assert(i <= last) by {
            if i == last + 1 {
                assert(s.closed.contains(w[last]));
            }
        }
        // the closed tile before it costs no more than the way up to it
        let k = choose|k: int| 0 <= k < n && s.closed[k] == w[i - 1];
        lemma_way_front(s.tiles, w, i - 1);
        assert(leads(s.tiles, w.subrange(0, i), start, s.closed[k]));
        assert(s.tiles[s.closed[k] as int].g <= STEP_COST * (i - 1));
        // the tile itself is open and costs at most one step more
        let v = w[i];
        assert(sides_listed(s, s.tiles[s.closed[k] as int]));
        assert(s.tiles[w[i - 1] as int].refers_to(v as int));
        assert(v < s.tiles.len());
        assert(listed(s, v as i32));
        assert(s.open.contains(v));
        assert(s.tiles[v as int].g <= s.tiles[s.closed[k] as int].g + STEP_COST);
        // from there the estimate falls no faster than the way goes
        lemma_estimates_along(s.tiles, w, i, last);
        let m = choose|m: int| 0 <= m < s.open.len() && s.open[m] == v;
        assert(s.tiles[u as int].f <= s.tiles[s.open[m] as int].f);
        assert(s.tiles[u as int].f == s.tiles[u as int].g + s.tiles[u as int].h);
        assert(s.tiles[v as int].f == s.tiles[v as int].g + s.tiles[v as int].h);
        assert(STEP_COST * (i - 1) + STEP_COST + STEP_COST * (last - i) == STEP_COST * last) by (
            nonlinear_arith);
    }
}

/// The search begins with tight costs.
pub proof fn lemma_start_tight(tiles: Seq<Tile>, start: usize, end: usize)
    requires
        searchable(tiles, start as int, end as int),
        even_estimates(cleared_all(tiles, end as int)),
    ensures
        tight(start_state(tiles, start, end), start, 0),
{
    reveal(tight);
}

/// Taking the next tile out of the open list keeps the costs tight.
pub proof fn lemma_popped_tight(s: Search, start: usize)
    requires
        steady(s),
        rooted(s, start),
        fenced(s, s.closed.len() as int),
        tight(s, start, s.closed.len() as int),
        s.open.len() > 0,
    ensures
        tight(popped(s), start, s.closed.len() as int),
{
    reveal(tight);
    let p = popped(s);
    let u = next_tile(s);
    let n = s.closed.len() as int;
    lemma_popped_steady(s);
    lemma_next_tile_is_first_lowest(s);
    assert(p.closed.last() == u);
    assert forall|m: int|
        0 <= m < p.open.len() implies
        s.tiles[u as int].f <= p.tiles[#[trigger] p.open[m] as int].f by {
        assert(p.open.contains(p.open[m]));
        assert(s.open.contains(p.open[m]));
        let q = choose|q: int| 0 <= q < s.open.len() && s.open[q] == p.open[m];
        assert(s.tiles[u as int].f <= s.tiles[s.open[q] as int].f);
    }
    assert forall|j: int, k: int|
        0 <= j <= k < p.closed.len() implies p.tiles[#[trigger] p.closed[j] as int].f
        <= p.tiles[#[trigger] p.closed[k] as int].f by {
        if k == n && j < n {
            let q = choose|q: int| 0 <= q < s.open.len() && s.open[q] == u;
            assert(s.tiles[s.closed.last() as int].f <= s.tiles[s.open[q] as int].f);
            assert(s.tiles[s.closed[j] as int].f <= s.tiles[s.closed[n - 1] as int].f);
        } else if k < n {
            assert(s.tiles[s.closed[j] as int].f <= s.tiles[s.closed[k] as int].f);
        }
    }
    assert forall|k: int, to: int|
        0 <= k < n && 0 <= to < p.tiles.len()
            && #[trigger] p.tiles[p.closed[k] as int].refers_to(to)
            && p.open.contains(to as usize) implies
        p.tiles[to].g <= p.tiles[p.closed[k] as int].g + STEP_COST by {
        assert(p.closed[k] == s.closed[k]);
        assert(s.open.contains(to as usize));
        assert(s.tiles[s.closed[k] as int].refers_to(to));
    }
    assert forall|k: int, w: Seq<usize>|
        0 <= k < p.closed.len() && #[trigger] leads(p.tiles, w, start, p.closed[k]) implies
        p.tiles[p.closed[k] as int].g <= way_cost(w) by {
        if k < n {
            assert(p.closed[k] == s.closed[k]);
            assert(leads(s.tiles, w, start, s.closed[k]));
        } else {
            lemma_next_tile_cost(s, start, w);
        }
    }
}

/// Following a reference of the tile closed last keeps the costs tight, and
/// leaves the tile that the reference leads to, if it is open, at a cost of
/// at most one step more than the closed tile. Tiles that were so cheap stay
/// so cheap.
pub proof fn lemma_relax_tight(s: Search, start: usize, current: usize, side: i32, upto: int)
    requires
        steady(s),
        rooted(s, start),
        upto == s.closed.len() - 1,
        0 <= upto,
        fenced(s, upto),
        tight(s, start, upto),
        current == s.closed.last(),
        side < 0 || s.tiles[current as int].refers_to(side as int),
        side < s.tiles.len(),
        s.tiles[current as int].g + STEP_COST <= STEP_COST * s.closed.len(),
    ensures
        tight(relax(s, current, side), start, upto),
        cheap_side(relax(s, current, side), current, side),
        forall|other: i32|
            cheap_side(s, current, other) ==> #[trigger] cheap_side(
                relax(s, current, side),
                current,
                other,
            ),
{
    reveal(tight);
    let r = relax(s, current, side);
    assert(s.closed[upto] == current);
    assert(s.closed.contains(current));
    lemma_relax_steady(s, current, side);
    lemma_distinct_ids_fit(s.closed, s.tiles.len());
    if side < 0 || s.closed.contains(side as usize) {
    } else {
        let id = side as usize;
        assert(id != current);
        assert(same_cells(r.tiles, s.tiles));
        assert forall|k: int| 0 <= k < s.closed.len() implies r.tiles[#[trigger] s.closed[k] as int]
            == s.tiles[s.closed[k] as int] by {
            assert(s.closed.contains(s.closed[k]));
        }
        assert(0 <= s.tiles[current as int].g);
        assert(0 <= s.tiles[id as int].h);
        assert(s.tiles[current as int].f == s.tiles[current as int].g + s.tiles[current as int].h);
        assert(s.tiles[current as int].h <= STEP_COST + s.tiles[id as int].h);
        assert forall|i: int, to: int|
            0 <= i < r.tiles.len() && 0 <= to < r.tiles.len() && #[trigger] r.tiles[i].refers_to(
                to,
            ) implies r.tiles[i].h <= STEP_COST + r.tiles[to].h by {
            assert(r.tiles[i].same_cell(s.tiles[i]));
            assert(s.tiles[i].refers_to(to));
        }
        assert forall|m: int| 0 <= m < r.open.len() implies r.tiles[r.closed.last() as int].f
            <= r.tiles[#[trigger] r.open[m] as int].f by {
            let x = r.open[m];
            assert(r.open.contains(x));
            if x == id && crate::search::improves(s.tiles, s.open, current, id) {
            } else {
                assert(s.open.contains(x));
                let q = choose|q: int| 0 <= q < s.open.len() && s.open[q] == x;
                assert(s.tiles[s.closed.last() as int].f <= s.tiles[s.open[q] as int].f);
                assert(r.tiles[x as int] == s.tiles[x as int]);
            }
        }
        assert forall|j: int, k: int|
            0 <= j <= k < r.closed.len() implies r.tiles[#[trigger] r.closed[j] as int].f
            <= r.tiles[#[trigger] r.closed[k] as int].f by {
            assert(s.tiles[s.closed[j] as int].f <= s.tiles[s.closed[k] as int].f);
        }
        assert forall|k: int, to: int|
            0 <= k < upto && 0 <= to < r.tiles.len()
                && #[trigger] r.tiles[r.closed[k] as int].refers_to(to)
                && r.open.contains(to as usize) implies
            r.tiles[to].g <= r.tiles[r.closed[k] as int].g + STEP_COST by {
            assert(s.tiles[s.closed[k] as int].refers_to(to));
            // a tile that an earlier closed tile refers to was listed before
            assert(sides_listed(s, s.tiles[s.closed[k] as int]));
            assert(listed(s, to as i32));
            if to == id {
                assert(s.open.contains(id));
            } else {
                assert(s.open.contains(to as usize));
            }
        }
        assert forall|k: int, w: Seq<usize>|
            0 <= k < r.closed.len() && #[trigger] leads(r.tiles, w, start, r.closed[k]) implies
            r.tiles[r.closed[k] as int].g <= way_cost(w) by {
            lemma_same_ways(r.tiles, s.tiles, w);
            assert(leads(s.tiles, w, start, s.closed[k]));
        }
    }
    assert forall|other: i32| cheap_side(s, current, other) implies #[trigger] cheap_side(
        r,
        current,
        other,
    ) by {
        if other >= 0 && r.open.contains(other as usize) {
            if s.open.contains(other as usize) {
            } else {
                assert(other == side);
            }
        }
    }
}

/// Once the tiles that the tile closed last refers to cost at most one step
/// more than it, the costs are tight up to that tile too.
pub proof fn lemma_round_end(s: Search, start: usize)
    requires
        steady(s),
        s.closed.len() > 0,
        tight(s, start, s.closed.len() - 1),
        cheap_side(s, s.closed.last(), s.tiles[s.closed.last() as int].top),
        cheap_side(s, s.closed.last(), s.tiles[s.closed.last() as int].bottom),
        cheap_side(s, s.closed.last(), s.tiles[s.closed.last() as int].left),
        cheap_side(s, s.closed.last(), s.tiles[s.closed.last() as int].right),
    ensures
        tight(s, start, s.closed.len() as int),
{
    reveal(tight);
    let n = s.closed.len() - 1;
    let current = s.closed.last();
    let t = s.tiles[current as int];
    assert forall|k: int, to: int|
        0 <= k < s.closed.len() && 0 <= to < s.tiles.len()
            && #[trigger] s.tiles[s.closed[k] as int].refers_to(to)
            && s.open.contains(to as usize) implies
        s.tiles[to].g <= s.tiles[s.closed[k] as int].g + STEP_COST by {
        if k == n {
            let side = to as i32;
            assert(side == t.top || side == t.bottom || side == t.left || side == t.right);
            assert(cheap_side(s, current, side));
        }
    }
}

/// A round keeps the costs tight.
pub proof fn lemma_expand_tight(s: Search, start: usize)
    requires
        steady(s),
        rooted(s, start),
        fenced(s, s.closed.len() as int),
        tight(s, start, s.closed.len() as int),
        s.open.len() > 0,
    ensures
        tight(expand(s), start, expand(s).closed.len() as int),
{
    let current = next_tile(s);
    let t = s.tiles[current as int];
    let p = popped(s);
    let n = s.closed.len() as int;
    lemma_popped_steady(s);
    lemma_popped_rooted(s, start);
    lemma_popped_tight(s, start);
    assert(t.links_below(s.tiles.len()));
    let (a, b, c, d) = if forward_round(s.closed.len()) {
        (t.top, t.bottom, t.right, t.left)
    } else {
        (t.left, t.right, t.bottom, t.top)
    };
    assert(p.closed.last() == current);
    lemma_relax_steady(p, current, a);
    lemma_relax_rooted(p, start, current, a, n);
    lemma_relax_tight(p, start, current, a, n);
    let r1 = relax(p, current, a);
    lemma_relax_steady(r1, current, b);
    lemma_relax_rooted(r1, start, current, b, n);
    lemma_relax_tight(r1, start, current, b, n);
    let r2 = relax(r1, current, b);
    assert(cheap_side(r2, current, a));
    lemma_relax_steady(r2, current, c);
    lemma_relax_rooted(r2, start, current, c, n);
    lemma_relax_tight(r2, start, current, c, n);
    let r3 = relax(r2, current, c);
    assert(cheap_side(r3, current, a));
    assert(cheap_side(r3, current, b));
    lemma_relax_steady(r3, current, d);
    lemma_relax_rooted(r3, start, current, d, n);
    lemma_relax_tight(r3, start, current, d, n);
    let r4 = relax(r3, current, d);
    assert(cheap_side(r4, current, a));
    assert(cheap_side(r4, current, b));
    assert(cheap_side(r4, current, c));
    assert(r4 == expand(s));
    assert(r4.tiles[current as int] == t);
    assert(r4.closed.last() == current);
    lemma_round_end(r4, start);
}

/// A run keeps the costs tight.
pub proof fn lemma_run_tight(s: Search, start: usize, end: usize, rounds: nat)
    requires
        steady(s),
        rooted(s, start),
        fenced(s, s.closed.len() as int),
        tight(s, start, s.closed.len() as int),
    ensures
        tight(run(s, end, rounds), start, run(s, end, rounds).closed.len() as int),
    decreases rounds,
{
    if rounds == 0 || finished(s, end) {
    } else {
        lemma_expand_steady(s);
        lemma_expand_rooted(s, start);
        lemma_expand_tight(s, start);
        lemma_run_tight(expand(s), start, end, (rounds - 1) as nat);
    }
}

/// With even estimates a search ends with tight costs.
pub proof fn lemma_outcome_tight(tiles: Seq<Tile>, start: usize, end: usize)
    requires
        searchable(tiles, start as int, end as int),
        even_estimates(cleared_all(tiles, end as int)),
    ensures
        tight(
            outcome(tiles, start, end),
            start,
            outcome(tiles, start, end).closed.len() as int,
        ),
{
    lemma_start_steady(tiles, start, end);
    lemma_start_rooted(tiles, start, end);
    lemma_start_tight(tiles, start, end);
    lemma_run_tight(start_state(tiles, start, end), start, end, tiles.len());
}

/// With even estimates the scores of the closed tiles never fall along the
/// order in which the search closed them.
pub proof fn lemma_closed_scores_rise(tiles: Seq<Tile>, start: usize, end: usize, j: int, k: int)
    requires
        searchable(tiles, start as int, end as int),
        even_estimates(cleared_all(tiles, end as int)),
        0 <= j <= k < outcome(tiles, start, end).closed.len(),
    ensures
        outcome(tiles, start, end).tiles[outcome(tiles, start, end).closed[j] as int].f <= outcome(
            tiles,
            start,
            end,
        ).tiles[outcome(tiles, start, end).closed[k] as int].f,
{
    reveal(tight);
    lemma_outcome_tight(tiles, start, end);
}

/// With even estimates the way that a search finds is a shortest way: no way
/// along the neighbour references from the start to the end has fewer steps.
pub proof fn lemma_found_way_is_shortest(tiles: Seq<Tile>, start: usize, end: usize, w: Seq<usize>)
    requires
        searchable(tiles, start as int, end as int),
        even_estimates(cleared_all(tiles, end as int)),
        leads(tiles, w, start, end),
    ensures
        path(outcome(tiles, start, end).tiles, start as int, end as int) is Some,
        path(outcome(tiles, start, end).tiles, start as int, end as int).unwrap().len() <= w.len(),
        outcome(tiles, start, end).tiles[end as int].g <= way_cost(w),
{
    reveal(tight);
    let found = outcome(tiles, start, end);
    lemma_outcome_finished(tiles, start, end);
    lemma_outcome_tight(tiles, start, end);
    crate::path::lemma_found_iff_reachable(tiles, start, end);
    assert(crate::path::reachable(tiles, start, end));
    lemma_found_way(tiles, start, end);
    let k = choose|k: int| 0 <= k < found.closed.len() && found.closed[k] == end;
    lemma_same_ways(found.tiles, tiles, w);
    assert(leads(found.tiles, w, start, found.closed[k]));
    let own = path(found.tiles, start as int, end as int).unwrap();
    assert(STEP_COST * (own.len() - 1) <= STEP_COST * (w.len() - 1));
}

} // verus!
