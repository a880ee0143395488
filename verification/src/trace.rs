//! What a search leaves behind: every tile it reached refers to the tile it
//! was reached from, and those references lead back to the start.

use crate::open_list::by_score;
use crate::search::{
    expand, finished, forward_round, lemma_expand_steady, lemma_popped_steady, lemma_relax_steady,
    lemma_start_steady, next_tile, outcome, popped, relax, run, searchable,
    start_state, steady, Search,
};
use crate::tile::{Tile, NO_TILE, STEP_COST};
use vstd::prelude::*;

verus! {

/// Whether tile `id` has, as its parent, the closed tile number `j`, which
/// refers to it and costs one step less.
pub open spec fn reached_via(s: Search, id: usize, j: int) -> bool {
    &&& 0 <= j < s.closed.len()
    &&& s.tiles[id as int].parent_id == s.closed[j]
    &&& s.tiles[s.closed[j] as int].refers_to(id as int)
    &&& s.tiles[id as int].g == s.tiles[s.closed[j] as int].g + STEP_COST
}

/// Whether the closed tile number `k` was reached from a tile closed before
/// it.
pub open spec fn has_parent_before(s: Search, k: int) -> bool {
    exists|j: int| j < k && reached_via(s, s.closed[k], j)
}

/// Whether tile `id` was reached from a closed tile.
pub open spec fn has_parent(s: Search, id: usize) -> bool {
    exists|j: int| reached_via(s, id, j)
}

/// What holds of the parents between any two rounds of a search, and within
/// a round: the start costs nothing, has no parent and was closed first,
/// every other closed tile was reached from a tile closed before it, every
/// open tile from a closed tile, and each score is cost plus estimate.
pub open spec fn rooted(s: Search, start: usize) -> bool {
    &&& forall|i: int|
        0 <= i < s.tiles.len() ==> (#[trigger] s.tiles[i]).f == s.tiles[i].g + s.tiles[i].h
    &&& start < s.tiles.len()
    &&& s.tiles[start as int].g == 0
    &&& s.tiles[start as int].parent_id == NO_TILE
    &&& s.closed.len() == 0 ==> s.open == seq![start]
    &&& s.closed.len() > 0 ==> s.closed[0] == start
    &&& forall|k: int| 0 < k < s.closed.len() ==> #[trigger] has_parent_before(s, k)
    &&& s.closed.len() > 0 ==> forall|id: usize|
        #[trigger] s.open.contains(id) ==> has_parent(s, id)
}

/// Whether the reference `side` is negative or leads to a tile that is open
/// or closed.
pub open spec fn listed(s: Search, side: i32) -> bool {
    side < 0 || s.closed.contains(side as usize) || s.open.contains(side as usize)
}

/// Whether each tile that `t` refers to is open or closed.
pub open spec fn sides_listed(s: Search, t: Tile) -> bool {
    &&& listed(s, t.top)
    &&& listed(s, t.bottom)
    &&& listed(s, t.left)
    &&& listed(s, t.right)
}

/// Whether each tile that one of the first `upto` closed tiles refers to is
/// open or closed.
pub open spec fn fenced(s: Search, upto: int) -> bool {
    forall|k: int| 0 <= k < upto ==> sides_listed(s, #[trigger] s.tiles[s.closed[k] as int])
}

/// The search begins with sound parents and nothing to fence.
pub proof fn lemma_start_rooted(tiles: Seq<Tile>, start: usize, end: usize)
    requires
        searchable(tiles, start as int, end as int),
    ensures
        rooted(start_state(tiles, start, end), start),
        fenced(start_state(tiles, start, end), 0),
{
    let s = start_state(tiles, start, end);
    assert forall|i: int| 0 <= i < s.tiles.len() implies (#[trigger] s.tiles[i]).f == s.tiles[i].g
        + s.tiles[i].h by {
        crate::search::lemma_estimate_bounds(tiles[i], tiles[end as int]);
    }
}

/// Taking the next tile out of the open list keeps the parents sound and
/// the fence where it was.
pub proof fn lemma_popped_rooted(s: Search, start: usize)
    requires
        steady(s),
        rooted(s, start),
        fenced(s, s.closed.len() as int),
        s.open.len() > 0,
    ensures
        rooted(popped(s), start),
        fenced(popped(s), s.closed.len() as int),
{
    let p = popped(s);
    let current = next_tile(s);
    let n = s.closed.len() as int;
    lemma_popped_steady(s);
    if n == 0 {
        assert(by_score(s.open, s.tiles) == seq![start]) by {
            reveal_with_fuel(by_score, 2);
            assert(s.open.drop_last() == Seq::<usize>::empty());
        }
        assert(p.open.len() == 0);
        assert forall|id: usize| #[trigger] p.open.contains(id) implies has_parent(p, id) by {
            assert(false);
        }
    } else {
        assert(has_parent_before(p, n)) by {
            assert(s.open.contains(current));
            assert(has_parent(s, current));
            let j = choose|j: int| reached_via(s, current, j);
            assert(p.closed[j] == s.closed[j]);
            assert(reached_via(p, current, j));
        }
        assert forall|id: usize| #[trigger] p.open.contains(id) implies has_parent(p, id) by {
            assert(s.open.contains(id));
            assert(has_parent(s, id));
            let j = choose|j: int| reached_via(s, id, j);
            assert(p.closed[j] == s.closed[j]);
            assert(reached_via(p, id, j));
        }
    }
    assert forall|k: int| 0 < k < p.closed.len() implies #[trigger] has_parent_before(p, k) by {
        if k < n {
            assert(has_parent_before(s, k));
            let j = choose|j: int| j < k && reached_via(s, s.closed[k], j);
            assert(p.closed[j] == s.closed[j]);
            assert(p.closed[k] == s.closed[k]);
            assert(reached_via(p, p.closed[k], j));
        }
    }
    assert forall|k: int|
        0 <= k < n implies sides_listed(p, #[trigger] p.tiles[p.closed[k] as int]) by {
        assert(p.closed[k] == s.closed[k]);
        let t = s.tiles[s.closed[k] as int];
        assert(sides_listed(s, t));
        lemma_listed_after_pop(s, t.top);
        lemma_listed_after_pop(s, t.bottom);
        lemma_listed_after_pop(s, t.left);
        lemma_listed_after_pop(s, t.right);
    }
}

/// A tile that is open or closed before the next tile is taken out is open
/// or closed after.
pub proof fn lemma_listed_after_pop(s: Search, side: i32)
    requires
        steady(s),
        s.open.len() > 0,
        listed(s, side),
    ensures
        listed(popped(s), side),
{
    let p = popped(s);
    lemma_popped_steady(s);
    if side >= 0 {
        let id = side as usize;
        if s.closed.contains(id) {
            let k = choose|k: int| 0 <= k < s.closed.len() && s.closed[k] == id;
            assert(p.closed[k] == id);
        } else if id == next_tile(s) {
        } else {
            assert(p.open.contains(id));
        }
    }
}

/// Following a reference of the tile closed last keeps the parents sound
/// and the fence where it was, and lists the tile that the reference leads
/// to.
pub proof fn lemma_relax_rooted(s: Search, start: usize, current: usize, side: i32, upto: int)
    requires
        steady(s),
        rooted(s, start),
        0 <= upto < s.closed.len(),
        fenced(s, upto),
        current == s.closed.last(),
        side < 0 || s.tiles[current as int].refers_to(side as int),
        side < s.tiles.len(),
        s.tiles[current as int].g + STEP_COST <= STEP_COST * s.closed.len(),
    ensures
        rooted(relax(s, current, side), start),
        fenced(relax(s, current, side), upto),
        listed(relax(s, current, side), side),
        forall|other: i32| listed(s, other) ==> listed(relax(s, current, side), other),
{
    let r = relax(s, current, side);
    let last = s.closed.len() - 1;
    assert(s.closed[last] == current);
    assert(s.closed.contains(current));
    lemma_relax_steady(s, current, side);
    crate::search::lemma_distinct_ids_fit(s.closed, s.tiles.len());
    assert forall|other: i32| listed(s, other) implies listed(r, other) by {
        if other >= 0 && s.open.contains(other as usize) {
            assert(r.open.contains(other as usize));
        }
    }
    if side < 0 || s.closed.contains(side as usize) {
    } else {
        let id = side as usize;
        assert(id != current);
        assert(r.open.contains(id));
        // closed tiles stay as they are
        assert forall|k: int| 0 <= k < s.closed.len() implies r.tiles[#[trigger] s.closed[k] as int]
            == s.tiles[s.closed[k] as int] by {
            assert(s.closed.contains(s.closed[k]));
        }
        assert forall|i: int| 0 <= i < r.tiles.len() implies (#[trigger] r.tiles[i]).f
            == r.tiles[i].g + r.tiles[i].h by {
            assert(s.tiles[i].f == s.tiles[i].g + s.tiles[i].h);
            assert(0 <= s.tiles[current as int].g);
            assert(0 <= s.tiles[i].h);
        }
        assert forall|k: int| 0 < k < r.closed.len() implies #[trigger] has_parent_before(r, k) by {
            assert(has_parent_before(s, k));
            let j = choose|j: int| j < k && reached_via(s, s.closed[k], j);
            assert(r.tiles[s.closed[k] as int] == s.tiles[s.closed[k] as int]);
            assert(r.tiles[s.closed[j] as int] == s.tiles[s.closed[j] as int]);
            assert(reached_via(r, r.closed[k], j));
        }
        assert forall|x: usize| #[trigger] r.open.contains(x) implies has_parent(r, x) by {
            if x == id && crate::search::improves(s.tiles, s.open, current, id) {
                assert(r.tiles[s.closed[last] as int] == s.tiles[s.closed[last] as int]);
                assert(0 <= s.tiles[current as int].g);
                assert(reached_via(r, x, last));
            } else {
                assert(s.open.contains(x));
                assert(has_parent(s, x));
                let j = choose|j: int| reached_via(s, x, j);
                assert(r.tiles[s.closed[j] as int] == s.tiles[s.closed[j] as int]);
                assert(r.tiles[x as int] == s.tiles[x as int]);
                assert(reached_via(r, x, j));
            }
        }
        assert forall|k: int| 0 <= k < upto implies sides_listed(
            r,
            #[trigger] r.tiles[r.closed[k] as int],
        ) by {
            assert(r.tiles[s.closed[k] as int] == s.tiles[s.closed[k] as int]);
            assert(sides_listed(s, s.tiles[s.closed[k] as int]));
        }
    }
}

/// A round keeps the parents sound and moves the fence past the tile it
/// closed.
pub proof fn lemma_expand_rooted(s: Search, start: usize)
    requires
        steady(s),
        rooted(s, start),
        fenced(s, s.closed.len() as int),
        s.open.len() > 0,
    ensures
        rooted(expand(s), start),
        fenced(expand(s), expand(s).closed.len() as int),
{
    let current = next_tile(s);
    let t = s.tiles[current as int];
    let p = popped(s);
    let n = s.closed.len() as int;
    lemma_popped_steady(s);
    lemma_popped_rooted(s, start);
    assert(t.links_below(s.tiles.len()));
    let (a, b, c, d) = if forward_round(s.closed.len()) {
        (t.top, t.bottom, t.right, t.left)
    } else {
        (t.left, t.right, t.bottom, t.top)
    };
    assert(p.closed.last() == current);
    lemma_relax_steady(p, current, a);
    lemma_relax_rooted(p, start, current, a, n);
    let r1 = relax(p, current, a);
    lemma_relax_steady(r1, current, b);
    lemma_relax_rooted(r1, start, current, b, n);
    let r2 = relax(r1, current, b);
    lemma_relax_steady(r2, current, c);
    lemma_relax_rooted(r2, start, current, c, n);
    let r3 = relax(r2, current, c);
    lemma_relax_steady(r3, current, d);
    lemma_relax_rooted(r3, start, current, d, n);
    let r4 = relax(r3, current, d);
    assert(r4 == expand(s));
    assert(listed(r4, a) && listed(r4, b) && listed(r4, c) && listed(r4, d));
    assert(r4.tiles[current as int] == t);
    assert forall|k: int| 0 <= k < r4.closed.len() implies sides_listed(
        r4,
        #[trigger] r4.tiles[r4.closed[k] as int],
    ) by {
        if k == n {
            assert(r4.closed[k] == current);
        }
    }
}

/// A run keeps the parents sound and the fence around all closed tiles.
pub proof fn lemma_run_rooted(s: Search, start: usize, end: usize, rounds: nat)
    requires
        steady(s),
        rooted(s, start),
        fenced(s, s.closed.len() as int),
    ensures
        rooted(run(s, end, rounds), start),
        fenced(run(s, end, rounds), run(s, end, rounds).closed.len() as int),
    decreases rounds,
{
    if rounds == 0 || finished(s, end) {
    } else {
        lemma_expand_steady(s);
        lemma_expand_rooted(s, start);
        lemma_run_rooted(expand(s), start, end, (rounds - 1) as nat);
    }
}

/// A search ends with sound parents and with the fence around all closed
/// tiles.
pub proof fn lemma_outcome_rooted(tiles: Seq<Tile>, start: usize, end: usize)
    requires
        searchable(tiles, start as int, end as int),
    ensures
        rooted(outcome(tiles, start, end), start),
        fenced(outcome(tiles, start, end), outcome(tiles, start, end).closed.len() as int),
{
    lemma_start_steady(tiles, start, end);
    lemma_start_rooted(tiles, start, end);
    lemma_run_rooted(start_state(tiles, start, end), start, end, tiles.len());
}

} // verus!
