//! The open list of a search: tile ids in the order in which the search keeps
//! them, and the order by score that it picks from.

use crate::tile::Tile;
use vstd::prelude::*;

verus! {

/// Whether every id in `ids` is the index of a tile.
pub open spec fn ids_in_range(ids: Seq<usize>, count: nat) -> bool {
    forall|k: int| 0 <= k < ids.len() ==> ids[k] < count
}

/// The list `sorted` with `id` put behind the last entry whose score is not
/// above the score of `id`.
pub open spec fn placed(sorted: Seq<usize>, id: usize, tiles: Seq<Tile>) -> Seq<usize>
    decreases sorted.len(),
{
    if sorted.len() == 0 || tiles[sorted.last() as int].f <= tiles[id as int].f {
        sorted.push(id)
    } else {
        placed(sorted.drop_last(), id, tiles).push(sorted.last())
    }
}

/// The ids of `ids` in ascending order of their tiles' scores. Ids of equal
/// score keep the order they have in `ids`.
pub open spec fn by_score(ids: Seq<usize>, tiles: Seq<Tile>) -> Seq<usize>
    decreases ids.len(),
{
    if ids.len() == 0 {
        ids
    } else {
        placed(by_score(ids.drop_last(), tiles), ids.last(), tiles)
    }
}

/// Whether the scores along `ids` never fall.
pub open spec fn ascending(ids: Seq<usize>, tiles: Seq<Tile>) -> bool {
    forall|i: int, j: int|
        0 <= i <= j < ids.len() ==> tiles[#[trigger] ids[i] as int].f <= tiles[#[trigger] ids[
            j
        ] as int].f
}

/// The test whether a tile has the score `score`.
pub open spec fn has_score(tiles: Seq<Tile>, score: i64) -> spec_fn(usize) -> bool {
    |id: usize| tiles[id as int].f == score
}

/// The entries of `ids` whose score is `score`, in their order in `ids`.
pub open spec fn with_score(ids: Seq<usize>, tiles: Seq<Tile>, score: i64) -> Seq<usize> {
    ids.filter(has_score(tiles, score))
}

/// The place in `ids` of the first entry that no entry has a lower score
/// than.
pub open spec fn first_lowest(ids: Seq<usize>, tiles: Seq<Tile>) -> int
    decreases ids.len(),
{
    if ids.len() <= 1 {
        0
    } else {
        let front = first_lowest(ids.drop_last(), tiles);
        if tiles[ids.last() as int].f < tiles[ids[front] as int].f {
            ids.len() - 1
        } else {
            front
        }
    }
}

/// What is left of a list when its first entry is taken out and its last
/// entry put in that place.
pub open spec fn without_first(ids: Seq<usize>) -> Seq<usize>
    recommends
        ids.len() > 0,
{
    ids.update(0, ids.last()).drop_last()
}

/// Placing an id adds that id and nothing else.
pub proof fn lemma_placed_holds(sorted: Seq<usize>, id: usize, tiles: Seq<Tile>)
    ensures
        placed(sorted, id, tiles).len() == sorted.len() + 1,
        placed(sorted, id, tiles).to_multiset() == sorted.to_multiset().insert(id),
    decreases sorted.len(),
{
    broadcast use vstd::seq_lib::group_to_multiset_ensures;

    if sorted.len() == 0 || tiles[sorted.last() as int].f <= tiles[id as int].f {
    } else {
        let front = sorted.drop_last();
        lemma_placed_holds(front, id, tiles);
        assert(front.push(sorted.last()) == sorted);
        assert(placed(sorted, id, tiles).to_multiset() == front.to_multiset().insert(id).insert(
            sorted.last(),
        ));
        assert(sorted.to_multiset() == front.to_multiset().insert(sorted.last()));
        assert(front.to_multiset().insert(id).insert(sorted.last()) == front.to_multiset().insert(
            sorted.last(),
        ).insert(id));
    }
}

/// Placing an id into an ascending list leaves it ascending.
pub proof fn lemma_placed_ascending(sorted: Seq<usize>, id: usize, tiles: Seq<Tile>)
    requires
        ascending(sorted, tiles),
    ensures
        ascending(placed(sorted, id, tiles), tiles),
        placed(sorted, id, tiles).last() == id || (sorted.len() > 0 && placed(
            sorted,
            id,
            tiles,
        ).last() == sorted.last() && tiles[id as int].f < tiles[sorted.last() as int].f),
    decreases sorted.len(),
{
    if sorted.len() == 0 || tiles[sorted.last() as int].f <= tiles[id as int].f {
        let out = sorted.push(id);
        assert forall|i: int, j: int|
            0 <= i <= j < out.len() implies tiles[#[trigger] out[i] as int].f
            <= tiles[#[trigger] out[j] as int].f by {
            if j == sorted.len() && i < j {
                assert(tiles[sorted[i] as int].f <= tiles[sorted[sorted.len() - 1] as int].f);
            }
        }
    } else {
        let front = sorted.drop_last();
        assert forall|i: int, j: int|
            0 <= i <= j < front.len() implies tiles[#[trigger] front[i] as int].f
            <= tiles[#[trigger] front[j] as int].f by {
            assert(front[i] == sorted[i] && front[j] == sorted[j]);
        }
        lemma_placed_ascending(front, id, tiles);
        lemma_placed_holds(front, id, tiles);
        let mid = placed(front, id, tiles);
        let out = mid.push(sorted.last());
        assert forall|i: int, j: int|
            0 <= i <= j < out.len() implies tiles[#[trigger] out[i] as int].f
            <= tiles[#[trigger] out[j] as int].f by {
            if j == mid.len() && i < j {
                // every score in `mid` is one of `front` or that of `id`
                assert(tiles[mid[i] as int].f <= tiles[mid[mid.len() - 1] as int].f);
                if mid.last() == id {
                } else {
                    assert(front[front.len() - 1] == sorted[front.len() - 1]);
                    assert(tiles[sorted[front.len() - 1] as int].f <= tiles[sorted[sorted.len()
                        - 1] as int].f);
                }
            }
        }
    }
}

/// The ordered list holds the ids of the given list, each as often as there,
/// and its scores never fall.
pub proof fn lemma_by_score_permutes(ids: Seq<usize>, tiles: Seq<Tile>)
    ensures
        by_score(ids, tiles).len() == ids.len(),
        by_score(ids, tiles).to_multiset() == ids.to_multiset(),
        ascending(by_score(ids, tiles), tiles),
    decreases ids.len(),
{
    broadcast use vstd::seq_lib::group_to_multiset_ensures;

    if ids.len() == 0 {
    } else {
        let front = ids.drop_last();
        lemma_by_score_permutes(front, tiles);
        lemma_placed_holds(by_score(front, tiles), ids.last(), tiles);
        lemma_placed_ascending(by_score(front, tiles), ids.last(), tiles);
        assert(front.push(ids.last()) == ids);
    }
}

/// The ordered list holds exactly the ids of the given list, and holds none
/// twice if the given list holds none twice.
pub proof fn lemma_by_score_same_ids(ids: Seq<usize>, tiles: Seq<Tile>)
    ensures
        forall|id: usize| by_score(ids, tiles).contains(id) <==> ids.contains(id),
        ids.no_duplicates() ==> by_score(ids, tiles).no_duplicates(),
{
    broadcast use vstd::seq_lib::group_to_multiset_ensures;

    lemma_by_score_permutes(ids, tiles);
    let out = by_score(ids, tiles);
    assert forall|id: usize| out.contains(id) <==> ids.contains(id) by {
        assert(out.to_multiset().count(id) == ids.to_multiset().count(id));
    }
    if ids.no_duplicates() {
        ids.lemma_multiset_has_no_duplicates();
        out.lemma_multiset_has_no_duplicates_conv();
    }
}

/// No entry has a lower score than the first lowest, and every entry before
/// it has a higher score.
pub proof fn lemma_first_lowest(ids: Seq<usize>, tiles: Seq<Tile>)
    requires
        ids.len() > 0,
    ensures
        0 <= first_lowest(ids, tiles) < ids.len(),
        forall|m: int|
            0 <= m < ids.len() ==> tiles[ids[first_lowest(ids, tiles)] as int].f
                <= tiles[#[trigger] ids[m] as int].f,
        forall|m: int|
            0 <= m < first_lowest(ids, tiles) ==> tiles[ids[first_lowest(ids, tiles)] as int].f
                < tiles[#[trigger] ids[m] as int].f,
    decreases ids.len(),
{
    if ids.len() > 1 {
        let front = ids.drop_last();
        lemma_first_lowest(front, tiles);
        let b = first_lowest(front, tiles);
        assert(front[b] == ids[b]);
        assert forall|m: int|
            0 <= m < ids.len() implies tiles[ids[first_lowest(ids, tiles)] as int].f
            <= tiles[#[trigger] ids[m] as int].f by {
            if m < front.len() {
                assert(front[m] == ids[m]);
            }
        }
        assert forall|m: int| 0 <= m < first_lowest(ids, tiles) implies tiles[ids[first_lowest(
            ids,
            tiles,
        )] as int].f < tiles[#[trigger] ids[m] as int].f by {
            assert(front[m] == ids[m]);
        }
    }
}

/// A placed id comes first only if its score is below every score of the
/// list.
pub proof fn lemma_placed_head(sorted: Seq<usize>, id: usize, tiles: Seq<Tile>)
    requires
        ascending(sorted, tiles),
    ensures
        placed(sorted, id, tiles)[0] == if sorted.len() == 0 || tiles[id as int].f
            < tiles[sorted[0] as int].f {
            id
        } else {
            sorted[0]
        },
    decreases sorted.len(),
{
    if sorted.len() == 0 {
    } else if tiles[sorted.last() as int].f <= tiles[id as int].f {
        assert(tiles[sorted[0] as int].f <= tiles[sorted[sorted.len() - 1] as int].f);
    } else {
        let front = sorted.drop_last();
        assert forall|i: int, j: int|
            0 <= i <= j < front.len() implies tiles[#[trigger] front[i] as int].f
            <= tiles[#[trigger] front[j] as int].f by {
            assert(front[i] == sorted[i] && front[j] == sorted[j]);
        }
        lemma_placed_head(front, id, tiles);
        lemma_placed_holds(front, id, tiles);
        if front.len() > 0 {
            assert(front[0] == sorted[0]);
        }
    }
}

/// The ordered list begins with the first lowest entry of the given list:
/// of the entries with the lowest score, the one that comes first.
pub proof fn lemma_by_score_head(ids: Seq<usize>, tiles: Seq<Tile>)
    requires
        ids.len() > 0,
    ensures
        by_score(ids, tiles)[0] == ids[first_lowest(ids, tiles)],
    decreases ids.len(),
{
    let front = ids.drop_last();
    if ids.len() == 1 {
        assert(by_score(front, tiles) == Seq::<usize>::empty());
    } else {
        lemma_by_score_head(front, tiles);
        lemma_by_score_permutes(front, tiles);
        lemma_first_lowest(front, tiles);
        lemma_placed_head(by_score(front, tiles), ids.last(), tiles);
        assert(front[first_lowest(front, tiles)] == ids[first_lowest(front, tiles)]);
    }
}

/// Placing an id puts it behind the entries of its own score and leaves the
/// entries of every other score as they are.
pub proof fn lemma_placed_stable(sorted: Seq<usize>, id: usize, tiles: Seq<Tile>, score: i64)
    ensures
        with_score(placed(sorted, id, tiles), tiles, score) == if tiles[id as int].f == score {
            with_score(sorted, tiles, score).push(id)
        } else {
            with_score(sorted, tiles, score)
        },
    decreases sorted.len(),
{
    let pred = has_score(tiles, score);
    if sorted.len() == 0 || tiles[sorted.last() as int].f <= tiles[id as int].f {
        sorted.lemma_filter_push(id, pred);
    } else {
        let front = sorted.drop_last();
        let last = sorted.last();
        lemma_placed_stable(front, id, tiles, score);
        placed(front, id, tiles).lemma_filter_push(last, pred);
        front.lemma_filter_push(last, pred);
        assert(front.push(last) == sorted);
    }
}

/// Ordering by score keeps entries of equal score in the order they had:
/// for each score, the entries with that score are the same list before and
/// after.
pub proof fn lemma_by_score_stable(ids: Seq<usize>, tiles: Seq<Tile>, score: i64)
    ensures
        with_score(by_score(ids, tiles), tiles, score) == with_score(ids, tiles, score),
    decreases ids.len(),
{
    if ids.len() > 0 {
        let front = ids.drop_last();
        lemma_by_score_stable(front, tiles, score);
        lemma_placed_stable(by_score(front, tiles), ids.last(), tiles, score);
        front.lemma_filter_push(ids.last(), has_score(tiles, score));
        assert(front.push(ids.last()) == ids);
    }
}

/// Orders the open list by the scores of its tiles, lowest first, and keeps
/// ids of equal score in the order they had.
pub fn sort_by_score(open: &mut Vec<usize>, tiles: &Vec<Tile>)
    requires
        ids_in_range(old(open)@, tiles@.len()),
    ensures
        final(open)@ == by_score(old(open)@, tiles@),
        ascending(final(open)@, tiles@),
        final(open)@.to_multiset() == old(open)@.to_multiset(),
        forall|score: i64|
            #[trigger] with_score(final(open)@, tiles@, score) == with_score(
                old(open)@,
                tiles@,
                score,
            ),
{
    let n: usize = open.len();
    let mut i: usize = 0;
    while i < n
        invariant
            i <= n,
            n == open.len(),
            n == old(open)@.len(),
            ids_in_range(open@, tiles@.len()),
            open@.subrange(0, i as int) == by_score(old(open)@.subrange(0, i as int), tiles@),
            open@.subrange(i as int, n as int) == old(open)@.subrange(i as int, n as int),
        decreases n - i,
    {
        let id: usize = open[i];
        let score: i64 = tiles[id].f;
        let ghost before: Seq<usize> = open@;
        let ghost sorted: Seq<usize> = open@.subrange(0, i as int);
        let mut j: usize = i;
        proof {
            assert(open@.subrange(i as int, n as int)[0] == old(open)@[i as int]);
            assert(sorted.subrange(0, j as int) == sorted);
            assert(sorted.subrange(j as int, i as int) == Seq::<usize>::empty());
            assert(placed(sorted, id, tiles@) == placed(sorted, id, tiles@) + Seq::<
                usize,
            >::empty());
        }
        while j > 0 && tiles[open[j - 1]].f > score
            invariant
                j <= i < n,
                n == open.len(),
                id < tiles@.len(),
                score == tiles@[id as int].f,
                sorted.len() == i,
                ids_in_range(sorted, tiles@.len()),
                ids_in_range(open@, tiles@.len()),
                open@.subrange(0, j as int) == sorted.subrange(0, j as int),
                open@.subrange(j as int + 1, i as int + 1) == sorted.subrange(j as int, i as int),
                open@.subrange(i as int + 1, n as int) == before.subrange(i as int + 1, n as int),
                placed(sorted, id, tiles@) == placed(sorted.subrange(0, j as int), id, tiles@)
                    + sorted.subrange(j as int, i as int),
            decreases j,
        {
            let ghost open_then: Seq<usize> = open@;
            let moved: usize = open[j - 1];
            proof {
                assert(open@.subrange(0, j as int)[j - 1] == sorted.subrange(0, j as int)[j - 1]);
                assert(moved == sorted[j - 1]);
            }
            open.set(j, moved);
            proof {
                let head = sorted.subrange(0, j as int);
                assert(head.last() == moved);
                assert(head.drop_last() == sorted.subrange(0, j - 1));
                assert(placed(head, id, tiles@) == placed(
                    sorted.subrange(0, j - 1),
                    id,
                    tiles@,
                ).push(moved));
                assert(placed(sorted.subrange(0, j - 1), id, tiles@).push(moved) + sorted.subrange(
                    j as int,
                    i as int,
                ) == placed(sorted.subrange(0, j - 1), id, tiles@) + sorted.subrange(
                    j - 1,
                    i as int,
                ));
                assert(open@.subrange(0, j - 1) == sorted.subrange(0, j - 1)) by {
                    assert(open@.subrange(0, j - 1) == open_then.subrange(0, j as int).subrange(
                        0,
                        j - 1,
                    ));
                    assert(sorted.subrange(0, j - 1) == sorted.subrange(0, j as int).subrange(
                        0,
                        j - 1,
                    ));
                }
                assert(open@.subrange(j as int, i as int + 1) == sorted.subrange(
                    j - 1,
                    i as int,
                )) by {
                    let left = open@.subrange(j as int, i as int + 1);
                    let right = sorted.subrange(j - 1, i as int);
                    assert(left.len() == right.len());
                    assert forall|k: int| 0 <= k < left.len() implies left[k] == right[k] by {
                        if k > 0 {
                            assert(open_then.subrange(j as int + 1, i as int + 1)[k - 1]
                                == sorted.subrange(j as int, i as int)[k - 1]);
                        }
                    }
                }
                assert(open@.subrange(i as int + 1, n as int) == open_then.subrange(
                    i as int + 1,
                    n as int,
                ));
            }
            j = j - 1;
        }
        let ghost open_then: Seq<usize> = open@;
        open.set(j, id);
        proof {
            let head = sorted.subrange(0, j as int);
            if j > 0 {
                assert(open_then.subrange(0, j as int)[j - 1] == head[j - 1]);
                assert(head.last() == open_then[j - 1]);
            }
            assert(placed(head, id, tiles@) == head.push(id));
            let goal = placed(sorted, id, tiles@);
            assert(goal == head.push(id) + sorted.subrange(j as int, i as int));
            let now = open@.subrange(0, i as int + 1);
            assert(now.len() == goal.len());
            assert forall|k: int| 0 <= k < now.len() implies now[k] == goal[k] by {
                if k < j {
                    assert(open_then.subrange(0, j as int)[k] == head[k]);
                } else if k > j {
                    assert(open_then.subrange(j as int + 1, i as int + 1)[k - j - 1]
                        == sorted.subrange(j as int, i as int)[k - j - 1]);
                }
            }
            assert(now == goal);
            let taken = old(open)@.subrange(0, i as int + 1);
            assert(taken.drop_last() == old(open)@.subrange(0, i as int));
            assert(taken.last() == id);
            assert(by_score(taken, tiles@) == goal);
            assert(open@.subrange(i as int + 1, n as int) == old(open)@.subrange(
                i as int + 1,
                n as int,
            )) by {
                assert(before.subrange(i as int + 1, n as int) == before.subrange(
                    i as int,
                    n as int,
                ).subrange(1, n - i));
                assert(old(open)@.subrange(i as int + 1, n as int) == old(open)@.subrange(
                    i as int,
                    n as int,
                ).subrange(1, n - i));
            }
        }
        i = i + 1;
    }
    proof {
        assert(open@.subrange(0, n as int) == open@);
        assert(old(open)@.subrange(0, n as int) == old(open)@);
        lemma_by_score_permutes(old(open)@, tiles@);
        assert forall|score: i64|
            #[trigger] with_score(open@, tiles@, score) == with_score(
                old(open)@,
                tiles@,
                score,
            ) by {
            lemma_by_score_stable(old(open)@, tiles@, score);
        }
    }
}

/// Whether `id` is in the list.
pub fn contains_id(ids: &Vec<usize>, id: usize) -> (found: bool)
    ensures
        found == ids@.contains(id),
{
    let mut k: usize = 0;
    while k < ids.len()
        invariant
            k <= ids.len(),
            forall|m: int| 0 <= m < k ==> ids@[m] != id,
        decreases ids.len() - k,
    {
        if ids[k] == id {
            return true;
        }
        k = k + 1;
    }
    false
}

} // verus!
