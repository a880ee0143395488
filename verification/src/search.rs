//! The search as mathematics: its state, one round of it, and the state it
//! ends in.
//!
//! A search keeps an open list of tiles it has reached and not yet left, and
//! a closed list of tiles it has left, in the order in which it left them. One
//! round takes the open tile of lowest score, closes it, and relaxes the
//! tiles that it refers to. The search ends when the goal is closed or the
//! open list is empty.

use crate::open_list::{
    by_score, first_lowest, ids_in_range, lemma_by_score_head, lemma_by_score_permutes,
    lemma_by_score_same_ids, lemma_first_lowest, without_first,
};
use crate::tile::{Tile, STEP_COST};
use vstd::prelude::*;

verus! {

/// The largest estimate that two tiles can be apart.
pub const ESTIMATE_MAX: i64 = 85_899_345_900;

/// The state of a search between two rounds.
pub struct Search {
    /// The tiles, with the scores and parents written so far.
    pub tiles: Seq<Tile>,
    /// The tiles reached and not yet closed, in the order the search keeps.
    pub open: Seq<usize>,
    /// The tiles closed, in the order in which they were closed.
    pub closed: Seq<usize>,
}

/// Whether each neighbour reference of each tile is the index of a tile or
/// negative.
pub open spec fn links_in_range(tiles: Seq<Tile>) -> bool {
    forall|i: int| 0 <= i < tiles.len() ==> (#[trigger] tiles[i]).links_below(tiles.len())
}

/// What a search asks of the tiles and of its two ends: the ends are tiles,
/// the neighbour references lead to tiles, and every index fits a reference.
pub open spec fn searchable(tiles: Seq<Tile>, start: int, end: int) -> bool {
    &&& tiles.len() <= i32::MAX
    &&& 0 <= start < tiles.len()
    &&& 0 <= end < tiles.len()
    &&& links_in_range(tiles)
}

/// The tiles as a search towards tile `end` finds them before its first round.
pub open spec fn cleared_all(tiles: Seq<Tile>, end: int) -> Seq<Tile> {
    Seq::new(tiles.len(), |i: int| tiles[i].cleared(tiles[end]))
}

/// The state in which a search from `start` to `end` begins: every tile
/// cleared, the start alone in the open list, nothing closed.
pub open spec fn start_state(tiles: Seq<Tile>, start: usize, end: usize) -> Search {
    Search { tiles: cleared_all(tiles, end as int), open: seq![start], closed: Seq::empty() }
}

/// Whether the search is over: the goal is closed, or no tile is open.
pub open spec fn finished(s: Search, end: usize) -> bool {
    s.closed.contains(end) || s.open.len() == 0
}

/// Whether reaching `side` from `current` changes `side`: it does when `side`
/// is not open yet, and when the way over `current` costs less than the way
/// recorded in `side`.
pub open spec fn improves(tiles: Seq<Tile>, open: Seq<usize>, current: usize, side: usize) -> bool {
    !open.contains(side) || tiles[current as int].g + STEP_COST < tiles[side as int].g
}

/// The tiles after tile `side`, not closed, has been looked at from
/// `current`.
pub open spec fn checked_tiles(
    tiles: Seq<Tile>,
    open: Seq<usize>,
    current: usize,
    side: usize,
) -> Seq<Tile> {
    if improves(tiles, open, current, side) {
        tiles.update(
            side as int,
            tiles[side as int].reached_from(current as i32, tiles[current as int].g),
        )
    } else {
        tiles
    }
}

/// The open list after tile `side`, not closed, has been looked at.
pub open spec fn checked_open(open: Seq<usize>, side: usize) -> Seq<usize> {
    if open.contains(side) {
        open
    } else {
        open.push(side)
    }
}

/// The state after the reference `side` of the closed tile `current` has been
/// followed: nothing changes for a negative reference or a closed tile; any
/// other tile is looked at.
pub open spec fn relax(s: Search, current: usize, side: i32) -> Search {
    if side < 0 || s.closed.contains(side as usize) {
        s
    } else {
        Search {
            tiles: checked_tiles(s.tiles, s.open, current, side as usize),
            open: checked_open(s.open, side as usize),
            closed: s.closed,
        }
    }
}

/// The open tile that the next round closes: the first of those with the
/// lowest score.
pub open spec fn next_tile(s: Search) -> usize
    recommends
        s.open.len() > 0,
{
    by_score(s.open, s.tiles)[0]
}

/// The state once the next tile has left the open list for the closed list.
pub open spec fn popped(s: Search) -> Search
    recommends
        s.open.len() > 0,
{
    Search {
        tiles: s.tiles,
        open: without_first(by_score(s.open, s.tiles)),
        closed: s.closed.push(next_tile(s)),
    }
}

/// Whether the round that follows `closed` rounds follows the references in
/// the order top, bottom, right, left. Every fourth round does; the others
/// take the reverse order.
pub open spec fn forward_round(closed: nat) -> bool {
    closed % 4 == 0
}

/// The state after one round.
pub open spec fn expand(s: Search) -> Search
    recommends
        s.open.len() > 0,
{
    let current = next_tile(s);
    let t = s.tiles[current as int];
    let p = popped(s);
    if forward_round(s.closed.len()) {
        let first = relax(p, current, t.top);
        let second = relax(first, current, t.bottom);
        let third = relax(second, current, t.right);
        relax(third, current, t.left)
    } else {
        let first = relax(p, current, t.left);
        let second = relax(first, current, t.right);
        let third = relax(second, current, t.bottom);
        relax(third, current, t.top)
    }
}

/// The state after at most `rounds` rounds, fewer if the search is over
/// before.
pub open spec fn run(s: Search, end: usize, rounds: nat) -> Search
    decreases rounds,
{
    if rounds == 0 || finished(s, end) {
        s
    } else {
        run(expand(s), end, (rounds - 1) as nat)
    }
}

/// The state in which a search from `start` to `end` over `tiles` ends. No
/// search takes more rounds than there are tiles.
pub open spec fn outcome(tiles: Seq<Tile>, start: usize, end: usize) -> Search {
    run(start_state(tiles, start, end), end, tiles.len())
}

/// What holds of the state between any two rounds of a search: ids are
/// indices of tiles, no tile is listed twice or both open and closed, and the
/// scores stay within what the closed tiles allow.
pub open spec fn steady(s: Search) -> bool {
    &&& s.tiles.len() <= i32::MAX
    &&& links_in_range(s.tiles)
    &&& ids_in_range(s.open, s.tiles.len())
    &&& ids_in_range(s.closed, s.tiles.len())
    &&& s.open.no_duplicates()
    &&& s.closed.no_duplicates()
    &&& forall|id: usize| s.open.contains(id) ==> !s.closed.contains(id)
    &&& forall|i: int|
        0 <= i < s.tiles.len() ==> {
            &&& 0 <= (#[trigger] s.tiles[i]).g <= STEP_COST * s.closed.len()
            &&& 0 <= s.tiles[i].h <= ESTIMATE_MAX
        }
}

/// The tile that a round closes is an open tile of lowest score, and the
/// first such tile in the open list.
pub proof fn lemma_next_tile_is_first_lowest(s: Search)
    requires
        s.open.len() > 0,
    ensures
        next_tile(s) == s.open[first_lowest(s.open, s.tiles)],
        0 <= first_lowest(s.open, s.tiles) < s.open.len(),
        forall|m: int|
            0 <= m < s.open.len() ==> s.tiles[next_tile(s) as int].f
                <= s.tiles[#[trigger] s.open[m] as int].f,
        forall|m: int|
            0 <= m < first_lowest(s.open, s.tiles) ==> s.tiles[next_tile(s) as int].f
                < s.tiles[#[trigger] s.open[m] as int].f,
{
    lemma_by_score_head(s.open, s.tiles);
    lemma_first_lowest(s.open, s.tiles);
}

/// Ids that are all different and all below `count` are at most `count`.
pub proof fn lemma_distinct_ids_fit(ids: Seq<usize>, count: nat)
    requires
        ids.no_duplicates(),
        ids_in_range(ids, count),
    ensures
        ids.len() <= count,
    decreases count,
{
    if ids.len() == 0 {
    } else if count == 0 {
        assert(ids[0] < count);
    } else {
        let top = (count - 1) as usize;
        if ids.contains(top) {
            let k = choose|k: int| 0 <= k < ids.len() && ids[k] == top;
            let rest = ids.remove(k);
            assert forall|m: int| 0 <= m < rest.len() implies rest[m] < count - 1 by {
                if m < k {
                    assert(rest[m] == ids[m]);
                } else {
                    assert(rest[m] == ids[m + 1]);
                }
            }
            assert(rest.no_duplicates());
            lemma_distinct_ids_fit(rest, (count - 1) as nat);
        } else {
            assert forall|m: int| 0 <= m < ids.len() implies ids[m] < count - 1 by {
                if ids[m] == top {
                    assert(ids.contains(top));
                }
            }
            lemma_distinct_ids_fit(ids, (count - 1) as nat);
        }
    }
}

/// While a tile is open, not every tile is closed.
pub proof fn lemma_room_left(s: Search)
    requires
        steady(s),
        s.open.len() > 0,
    ensures
        s.closed.len() < s.tiles.len(),
{
    let first = s.open[0];
    assert(s.open.contains(first));
    let all = s.closed.push(first);
    assert(all.no_duplicates()) by {
        assert forall|i: int, j: int|
            0 <= i < all.len() && 0 <= j < all.len() && i != j implies all[i]
            != all[j] by {
            if i == s.closed.len() {
                assert(s.closed.contains(all[j]));
            } else if j == s.closed.len() {
                assert(s.closed.contains(all[i]));
            }
        }
    }
    lemma_distinct_ids_fit(all, s.tiles.len());
}

/// The search begins in a steady state.
pub proof fn lemma_start_steady(tiles: Seq<Tile>, start: usize, end: usize)
    requires
        searchable(tiles, start as int, end as int),
    ensures
        steady(start_state(tiles, start, end)),
{
    let s = start_state(tiles, start, end);
    assert forall|i: int| 0 <= i < s.tiles.len() implies (#[trigger] s.tiles[i]).links_below(
        s.tiles.len(),
    ) by {
        assert(tiles[i].links_below(tiles.len()));
    }
    assert forall|i: int| 0 <= i < s.tiles.len() implies 0 <= (#[trigger] s.tiles[i]).h
        <= ESTIMATE_MAX by {
        lemma_estimate_bounds(tiles[i], tiles[end as int]);
    }
}

/// An estimate is not negative and not above [`ESTIMATE_MAX`].
pub proof fn lemma_estimate_bounds(t: Tile, goal: Tile)
    ensures
        0 <= t.estimate(goal) <= ESTIMATE_MAX,
        t.cleared(goal).h == t.estimate(goal),
        t.cleared(goal).f == t.estimate(goal),
{
}

/// Taking the next tile out of the open list keeps the state steady, apart
/// from the bound on the costs, which the new closed tile loosens.
pub proof fn lemma_popped_steady(s: Search)
    requires
        steady(s),
        s.open.len() > 0,
    ensures
        steady(popped(s)),
        next_tile(s) < s.tiles.len(),
        s.open.contains(next_tile(s)),
        popped(s).closed.contains(next_tile(s)),
        !popped(s).open.contains(next_tile(s)),
        forall|id: usize|
            popped(s).open.contains(id) <==> (s.open.contains(id) && id != next_tile(s)),
        s.tiles[next_tile(s) as int].g + STEP_COST <= STEP_COST * popped(s).closed.len(),
{
    let sorted = by_score(s.open, s.tiles);
    let current = next_tile(s);
    let p = popped(s);
    lemma_by_score_same_ids(s.open, s.tiles);
    lemma_by_score_permutes(s.open, s.tiles);
    assert(sorted.contains(current));
    assert(s.open.contains(current));
    assert(p.closed[s.closed.len() as int] == current);
    // what is left of the sorted list is the sorted list without its head
    assert forall|id: usize| p.open.contains(id) <==> (sorted.contains(id) && id != current) by {
        if p.open.contains(id) {
            let k = choose|k: int| 0 <= k < p.open.len() && p.open[k] == id;
            if k == 0 {
                assert(p.open[0] == sorted.last());
                assert(sorted[sorted.len() - 1] == id);
            } else {
                assert(p.open[k] == sorted[k]);
            }
        }
        if sorted.contains(id) && id != current {
            let k = choose|k: int| 0 <= k < sorted.len() && sorted[k] == id;
            if k == sorted.len() - 1 {
                assert(p.open[0] == id);
            } else {
                assert(p.open[k] == id);
            }
        }
    }
    assert(p.open.no_duplicates()) by {
        assert forall|i: int, j: int| 0 <= i < p.open.len() && 0 <= j < p.open.len() && i
            != j implies p.open[i] != p.open[j] by {
            let a = if i == 0 {
                sorted.len() - 1
            } else {
                i
            };
            let b = if j == 0 {
                sorted.len() - 1
            } else {
                j
            };
            assert(p.open[i] == sorted[a] && p.open[j] == sorted[b]);
        }
    }
    assert(ids_in_range(p.open, p.tiles.len())) by {
        assert forall|k: int| 0 <= k < p.open.len() implies p.open[k] < p.tiles.len() by {
            assert(p.open.contains(p.open[k]));
            assert(s.open.contains(p.open[k]));
        }
    }
    assert(p.closed.no_duplicates()) by {
        assert forall|i: int, j: int| 0 <= i < p.closed.len() && 0 <= j < p.closed.len() && i
            != j implies p.closed[i] != p.closed[j] by {
            if i == s.closed.len() {
                assert(s.closed.contains(p.closed[j]));
            } else if j == s.closed.len() {
                assert(s.closed.contains(p.closed[i]));
            }
        }
    }
    assert forall|id: usize| p.open.contains(id) implies !p.closed.contains(id) by {
        if p.closed.contains(id) {
            let k = choose|k: int| 0 <= k < p.closed.len() && p.closed[k] == id;
            if k < s.closed.len() {
                assert(s.closed.contains(id));
            }
        }
    }
    assert(STEP_COST * p.closed.len() == STEP_COST * s.closed.len() + STEP_COST) by (
        nonlinear_arith)
        requires
            p.closed.len() == s.closed.len() + 1,
    ;
}

/// Following one reference of a closed tile keeps the state steady and
/// leaves the closed tile, every estimate and every neighbour reference as
/// they are.
pub proof fn lemma_relax_steady(s: Search, current: usize, side: i32)
    requires
        steady(s),
        current < s.tiles.len(),
        s.closed.contains(current),
        side < s.tiles.len(),
        s.tiles[current as int].g + STEP_COST <= STEP_COST * s.closed.len(),
    ensures
        steady(relax(s, current, side)),
        relax(s, current, side).closed == s.closed,
        relax(s, current, side).tiles.len() == s.tiles.len(),
        relax(s, current, side).tiles[current as int] == s.tiles[current as int],
        forall|id: usize|
            relax(s, current, side).open.contains(id) <==> (s.open.contains(id) || (side >= 0
                && !s.closed.contains(side as usize) && id == side as usize)),
{
    let r = relax(s, current, side);
    if side < 0 || s.closed.contains(side as usize) {
    } else {
        let id = side as usize;
        assert(id != current);
        assert forall|i: int| 0 <= i < r.tiles.len() implies (#[trigger] r.tiles[i]).links_below(
            r.tiles.len(),
        ) by {
            assert(s.tiles[i].links_below(s.tiles.len()));
        }
        assert forall|i: int| 0 <= i < r.tiles.len() implies {
            &&& 0 <= (#[trigger] r.tiles[i]).g <= STEP_COST * r.closed.len()
            &&& 0 <= r.tiles[i].h <= ESTIMATE_MAX
        } by {
            lemma_distinct_ids_fit(s.closed, s.tiles.len());
            assert(0 <= s.tiles[i].g);
            assert(0 <= s.tiles[current as int].g);
        }
        if !s.open.contains(id) {
            assert(r.open == s.open.push(id));
            assert(r.open.no_duplicates()) by {
                assert forall|i: int, j: int|
                    0 <= i < r.open.len() && 0 <= j < r.open.len() && i != j implies r.open[i]
                    != r.open[j] by {
                    if i == s.open.len() {
                        assert(s.open.contains(r.open[j]));
                    } else if j == s.open.len() {
                        assert(s.open.contains(r.open[i]));
                    }
                }
            }
            assert forall|x: usize| r.open.contains(x) implies !r.closed.contains(x) by {
                let k = choose|k: int| 0 <= k < r.open.len() && r.open[k] == x;
                if k < s.open.len() {
                    assert(s.open.contains(x));
                }
            }
            assert forall|x: usize| r.open.contains(x) <==> (s.open.contains(x) || x == id) by {
                if r.open.contains(x) {
                    let k = choose|k: int| 0 <= k < r.open.len() && r.open[k] == x;
                    if k < s.open.len() {
                        assert(s.open[k] == x);
                    }
                }
                if s.open.contains(x) {
                    let k = choose|k: int| 0 <= k < s.open.len() && s.open[k] == x;
                    assert(r.open[k] == x);
                }
                if x == id {
                    assert(r.open[s.open.len() as int] == x);
                }
            }
        }
    }
}

/// A round keeps the state steady.
pub proof fn lemma_expand_steady(s: Search)
    requires
        steady(s),
        s.open.len() > 0,
    ensures
        steady(expand(s)),
        expand(s).closed == s.closed.push(next_tile(s)),
        expand(s).tiles.len() == s.tiles.len(),
{
    let current = next_tile(s);
    let t = s.tiles[current as int];
    let p = popped(s);
    lemma_popped_steady(s);
    assert(t.links_below(s.tiles.len()));
    let (a, b, c, d) = if forward_round(s.closed.len()) {
        (t.top, t.bottom, t.right, t.left)
    } else {
        (t.left, t.right, t.bottom, t.top)
    };
    lemma_relax_steady(p, current, a);
    let r1 = relax(p, current, a);
    lemma_relax_steady(r1, current, b);
    let r2 = relax(r1, current, b);
    lemma_relax_steady(r2, current, c);
    let r3 = relax(r2, current, c);
    lemma_relax_steady(r3, current, d);
}

/// Once the search is over, further rounds change nothing; before that, a
/// run is one round and the run of what follows.
pub proof fn lemma_run_unfolds(s: Search, end: usize, rounds: nat)
    ensures
        finished(s, end) ==> run(s, end, rounds) == s,
        !finished(s, end) && rounds > 0 ==> run(s, end, rounds) == run(
            expand(s),
            end,
            (rounds - 1) as nat,
        ),
{
}

/// A run from a steady state that has room for every tile not yet closed
/// ends in a steady state in which the search is over.
pub proof fn lemma_run_finishes(s: Search, end: usize, rounds: nat)
    requires
        steady(s),
        end < s.tiles.len(),
        s.closed.len() + rounds >= s.tiles.len(),
    ensures
        steady(run(s, end, rounds)),
        finished(run(s, end, rounds), end),
        run(s, end, rounds).tiles.len() == s.tiles.len(),
    decreases rounds,
{
    if finished(s, end) {
    } else {
        lemma_room_left(s);
        lemma_expand_steady(s);
        lemma_run_finishes(expand(s), end, (rounds - 1) as nat);
    }
}

/// Whether `now` holds the tiles of `given` with nothing changed but what a
/// search writes: costs, estimates, scores and parents.
pub open spec fn same_cells(now: Seq<Tile>, given: Seq<Tile>) -> bool {
    &&& now.len() == given.len()
    &&& forall|i: int| 0 <= i < now.len() ==> (#[trigger] now[i]).same_cell(given[i])
}

/// Following a reference changes nothing in the tiles but what a search
/// writes.
pub proof fn lemma_relax_keeps_cells(s: Search, current: usize, side: i32)
    requires
        side < s.tiles.len(),
    ensures
        same_cells(relax(s, current, side).tiles, s.tiles),
{
}

/// A round changes nothing in the tiles but what a search writes.
pub proof fn lemma_expand_keeps_cells(s: Search)
    requires
        steady(s),
        s.open.len() > 0,
    ensures
        same_cells(expand(s).tiles, s.tiles),
{
    let current = next_tile(s);
    let t = s.tiles[current as int];
    let p = popped(s);
    lemma_popped_steady(s);
    assert(t.links_below(s.tiles.len()));
    let (a, b, c, d) = if forward_round(s.closed.len()) {
        (t.top, t.bottom, t.right, t.left)
    } else {
        (t.left, t.right, t.bottom, t.top)
    };
    let r1 = relax(p, current, a);
    lemma_relax_keeps_cells(p, current, a);
    let r2 = relax(r1, current, b);
    lemma_relax_keeps_cells(r1, current, b);
    let r3 = relax(r2, current, c);
    lemma_relax_keeps_cells(r2, current, c);
    let r4 = relax(r3, current, d);
    lemma_relax_keeps_cells(r3, current, d);
    lemma_same_cells_chain(r2.tiles, r1.tiles, s.tiles);
    lemma_same_cells_chain(r3.tiles, r2.tiles, s.tiles);
    lemma_same_cells_chain(r4.tiles, r3.tiles, s.tiles);
    assert(r4 == expand(s));
}

/// Tiles that keep the cells of tiles that keep the cells of others keep the
/// cells of the others.
pub proof fn lemma_same_cells_chain(now: Seq<Tile>, then: Seq<Tile>, given: Seq<Tile>)
    requires
        same_cells(now, then),
        same_cells(then, given),
    ensures
        same_cells(now, given),
{
    assert forall|i: int| 0 <= i < now.len() implies (#[trigger] now[i]).same_cell(given[i]) by {
        assert(then[i].same_cell(given[i]));
    }
}

/// A run changes nothing in the tiles but what a search writes.
pub proof fn lemma_run_keeps_cells(s: Search, end: usize, rounds: nat)
    requires
        steady(s),
    ensures
        same_cells(run(s, end, rounds).tiles, s.tiles),
    decreases rounds,
{
    if rounds == 0 || finished(s, end) {
    } else {
        lemma_expand_steady(s);
        lemma_expand_keeps_cells(s);
        lemma_run_keeps_cells(expand(s), end, (rounds - 1) as nat);
        lemma_same_cells_chain(run(s, end, rounds).tiles, expand(s).tiles, s.tiles);
    }
}

/// A search ends in a steady state, with the goal closed or nothing open,
/// and has changed nothing in the tiles but what a search writes.
pub proof fn lemma_outcome_finished(tiles: Seq<Tile>, start: usize, end: usize)
    requires
        searchable(tiles, start as int, end as int),
    ensures
        steady(outcome(tiles, start, end)),
        finished(outcome(tiles, start, end), end),
        outcome(tiles, start, end).tiles.len() == tiles.len(),
        same_cells(outcome(tiles, start, end).tiles, tiles),
{
    lemma_start_steady(tiles, start, end);
    lemma_run_finishes(start_state(tiles, start, end), end, tiles.len());
    lemma_run_keeps_cells(start_state(tiles, start, end), end, tiles.len());
}

} // verus!
