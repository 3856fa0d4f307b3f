use vstd::prelude::*;
use crate::grid::Cell;
use crate::grid::EllerMaze;
use crate::grid::MazeOrient;
use crate::grid::down_exit_ok;
use crate::grid::ids_le;
use crate::grid::ids_pos;
use crate::grid::set_has_down_exit;
use crate::grid::set_present;
use crate::rng::coin;
use crate::rng::fresh_rng;
use crate::sets::count_open_to;
use crate::sets::count_set_to;
use crate::sets::counts_ok;
use crate::sets::lemma_count_all;
use crate::sets::lemma_count_bounds;
use crate::sets::lemma_count_exists;
use crate::sets::lemma_count_frame;
use crate::sets::lemma_count_pair_le;
use crate::sets::lemma_count_relabel;
use crate::sets::lemma_count_update;
use crate::sets::lemma_free_id_exists;
use crate::sets::lemma_num_sets_drop;
use crate::sets::lemma_num_sets_none;
use crate::sets::lemma_num_sets_same;
use crate::sets::lemma_num_sets_single;
use crate::sets::lemma_open_bounds;
use crate::sets::lemma_open_bottom_zero;
use crate::sets::lemma_open_exists;
use crate::sets::lemma_open_le_count;
use crate::sets::lemma_open_right_frame;
use crate::sets::lemma_open_right_full;
use crate::sets::lemma_open_right_update;
use crate::sets::lemma_passages_frame;
use crate::sets::lemma_reset_counts;
use crate::sets::lemma_reset_zero;
use crate::sets::maze_passages;
use crate::sets::num_sets;
use crate::sets::open_bottom_to;
use crate::sets::open_right_to;
use crate::sets::passages_to;
use crate::sets::row_passages;

verus! {

/// One biased coin draw.  The orientation skews horizontal (right-wall)
/// decisions and vertical (bottom-wall) decisions in opposite directions,
/// which stretches the maze's corridors one way or the other.  The result
/// is random; all callers are verified for either outcome.
fn verticality(orient: &MazeOrient, rng: &mut rand::rngs::ThreadRng, is_right: bool) -> bool {
    if is_right {
        match orient {
            MazeOrient::Normal => coin(rng),
            MazeOrient::Vertical => coin(rng) || coin(rng),
            MazeOrient::Horizontal => coin(rng) && coin(rng),
        }
    } else {
        match orient {
            MazeOrient::Normal => coin(rng),
            MazeOrient::Vertical => coin(rng) && coin(rng),
            MazeOrient::Horizontal => coin(rng) || coin(rng),
        }
    }
}

/// An exact copy of the live row, made when the row is archived into the
/// maze.
fn copy_row(row: &Vec<Cell>) -> (out: Vec<Cell>)
    ensures
        out@ == row@,
{
    let mut out: Vec<Cell> = Vec::new();
    let mut i: usize = 0;
    while i < row.len()
        invariant
            i <= row@.len(),
            out@ == row@.subrange(0, i as int),
        decreases row@.len() - i,
    {
        out.push(row[i]);
        proof {
            assert(out@ =~= row@.subrange(0, i + 1 as int));
        }
        i += 1;
    }
    proof {
        assert(out@ =~= row@);
    }
    out
}

/// Rebuilds the set table from the live row: entry `s` receives the number
/// of cells currently carrying set id `s` (entry 0 counts the unassigned
/// cells).
fn rebuild_counts(row: &Vec<Cell>) -> (counts: Vec<usize>)
    requires
        row@.len() >= 1,
        row@.len() < usize::MAX,
        ids_le(row@, row@.len() as int),
    ensures
        counts_ok(row@, counts@),
{
    let w = row.len();
    let mut counts: Vec<usize> = Vec::new();
    let mut s: usize = 0;
    while s < w + 1
        invariant
            s <= w + 1,
            w == row@.len() < usize::MAX,
            counts@.len() == s as int,
            forall|t: int| 0 <= t < s ==> (#[trigger] counts@[t]) as int == 0,
        decreases w + 1 - s,
    {
        counts.push(0);
        s += 1;
    }
    proof {
        assert forall|t: int| 0 <= t < counts@.len() implies (
        #[trigger] counts@[t]) as int == count_set_to(row@, t, 0) by {}
    }
    let mut i: usize = 0;
    while i < w
        invariant
            i <= w,
            w == row@.len() < usize::MAX,
            ids_le(row@, w as int),
            counts@.len() == w + 1,
            forall|t: int|
                0 <= t < counts@.len() ==> (#[trigger] counts@[t]) as int
                    == count_set_to(row@, t, i as int),
        decreases w - i,
    {
        let s = row[i].set_id;
        proof {
            lemma_count_bounds(row@, s as int, i as int);
        }
        let c = counts[s];
        counts[s] = c + 1;
        i += 1;
    }
    counts
}

/// Merges set `merge` into set `keep`: every member cell of `merge` is
/// relabelled to `keep`, and the counts table moves the whole count of
/// `merge` onto `keep`.  Walls are untouched.
fn union_sets(row: &mut Vec<Cell>, counts: &mut Vec<usize>, keep: usize, merge: usize)
    requires
        old(row)@.len() >= 1,
        old(row)@.len() < usize::MAX,
        ids_pos(old(row)@, old(row)@.len() as int),
        counts_ok(old(row)@, old(counts)@),
        1 <= keep <= old(row)@.len(),
        1 <= merge <= old(row)@.len(),
        keep != merge,
        count_set_to(old(row)@, keep as int, old(row)@.len() as int) > 0,
        count_set_to(old(row)@, merge as int, old(row)@.len() as int) > 0,
    ensures
        final(row)@.len() == old(row)@.len(),
        ids_pos(final(row)@, final(row)@.len() as int),
        counts_ok(final(row)@, final(counts)@),
        // two sets became one
        num_sets(final(row)@) == num_sets(old(row)@) - 1,
        forall|j: int|
            0 <= j < old(row)@.len() ==> (#[trigger] final(row)@[j]).set_id
                == (if old(row)@[j].set_id == merge {
                keep
            } else {
                old(row)@[j].set_id
            }),
        forall|j: int|
            0 <= j < old(row)@.len() ==> (#[trigger] final(row)@[j]).right_wall
                == old(row)@[j].right_wall && final(row)@[j].bottom_wall
                == old(row)@[j].bottom_wall,
{
    let w = row.len();
    let mut j: usize = 0;
    while j < w
        invariant
            j <= w,
            w == row@.len() == old(row)@.len(),
            w >= 1,
            keep != merge,
            1 <= keep <= w,
            1 <= merge <= w,
            forall|k: int| j <= k < w ==> #[trigger] row@[k] == old(row)@[k],
            forall|k: int|
                0 <= k < j ==> (#[trigger] row@[k]).set_id == (if old(
                    row,
                )@[k].set_id == merge {
                    keep
                } else {
                    old(row)@[k].set_id
                }),
            forall|k: int|
                0 <= k < j ==> (#[trigger] row@[k]).right_wall == old(
                    row,
                )@[k].right_wall && row@[k].bottom_wall == old(
                    row,
                )@[k].bottom_wall,
        decreases w - j,
    {
        if row[j].set_id == merge {
            row[j].set_id = keep;
        }
        j += 1;
    }
    proof {
        lemma_count_relabel(old(row)@, row@, keep as int, merge as int, w as int);
        lemma_count_pair_le(old(row)@, keep as int, merge as int, w as int);
        lemma_count_bounds(old(row)@, keep as int, w as int);
        lemma_count_bounds(old(row)@, merge as int, w as int);
        lemma_num_sets_drop(old(row)@, row@, merge as int, w as int);
    }
    let ck = counts[keep];
    let cm = counts[merge];
    counts[keep] = ck + cm;
    counts[merge] = 0;
}

/// The set-assignment step: every cell still carrying set id 0 receives
/// the smallest id not in use in the row, and becomes the sole member of
/// that fresh set.  Cells that already belong to a set, and all walls,
/// are untouched.
fn assign_sets(row: &mut Vec<Cell>, counts: &mut Vec<usize>)
    requires
        old(row)@.len() >= 1,
        old(row)@.len() < usize::MAX,
        ids_le(old(row)@, old(row)@.len() as int),
        counts_ok(old(row)@, old(counts)@),
    ensures
        final(row)@.len() == old(row)@.len(),
        ids_pos(final(row)@, final(row)@.len() as int),
        counts_ok(final(row)@, final(counts)@),
        forall|i: int|
            0 <= i < old(row)@.len() && old(row)@[i].set_id != 0 ==> (
            #[trigger] final(row)@[i]).set_id == old(row)@[i].set_id,
        forall|i: int|
            0 <= i < old(row)@.len() ==> (#[trigger] final(row)@[i]).right_wall
                == old(row)@[i].right_wall && final(row)@[i].bottom_wall
                == old(row)@[i].bottom_wall,
        forall|i: int|
            0 <= i < old(row)@.len() && old(row)@[i].set_id == 0
                ==> count_set_to(
                final(row)@,
                (#[trigger] final(row)@[i]).set_id as int,
                final(row)@.len() as int,
            ) == 1,
        // every unassigned cell founded one new set
        num_sets(final(row)@) == num_sets(old(row)@) + count_set_to(
            old(row)@,
            0,
            old(row)@.len() as int,
        ),
        count_set_to(final(row)@, 0, final(row)@.len() as int) == 0,
{
    let w = row.len();
    let mut i: usize = 0;
    while i < w
        invariant
            i <= w,
            w == row@.len() == old(row)@.len(),
            1 <= w < usize::MAX,
            ids_le(row@, w as int),
            counts_ok(row@, counts@),
            forall|k: int| i <= k < w ==> #[trigger] row@[k] == old(row)@[k],
            forall|k: int| 0 <= k < i ==> (#[trigger] row@[k]).set_id >= 1,
            forall|k: int|
                0 <= k < w && old(row)@[k].set_id != 0 ==> (
                #[trigger] row@[k]).set_id == old(row)@[k].set_id,
            forall|k: int|
                0 <= k < w ==> (#[trigger] row@[k]).right_wall == old(
                    row,
                )@[k].right_wall && row@[k].bottom_wall == old(
                    row,
                )@[k].bottom_wall,
            forall|k: int|
                0 <= k < i && old(row)@[k].set_id == 0 ==> count_set_to(
                    row@,
                    (#[trigger] row@[k]).set_id as int,
                    w as int,
                ) == 1,
            num_sets(row@) + count_set_to(row@, 0, w as int) == num_sets(old(row)@)
                + count_set_to(old(row)@, 0, w as int),
        decreases w - i,
    {
        if row[i].set_id == 0 {
            proof {
                lemma_count_exists(row@, 0, w as int);
                assert(0 <= i < w && row@[i as int].set_id as int == 0);
                lemma_free_id_exists(row@, w as int);
            }
            let ghost fid: int = choose|s: int|
                1 <= s <= w && #[trigger] count_set_to(row@, s, w as int) == 0;
            let mut s: usize = 1;
            while counts[s] != 0
                invariant
                    1 <= s <= fid,
                    1 <= fid <= w,
                    w == row@.len(),
                    w < usize::MAX,
                    counts_ok(row@, counts@),
                    count_set_to(row@, fid, w as int) == 0,
                decreases fid - s,
            {
                s += 1;
            }
            let ghost pre = row@;
            row[i].set_id = s;
            let c0 = counts[0];
            counts[s] = 1;
            counts[0] = c0 - 1;
            proof {
                let cell = row@[i as int];
                assert(row@ =~= pre.update(i as int, cell));
                assert forall|t: int| 0 <= t < counts@.len() implies (
                #[trigger] counts@[t]) as int == count_set_to(
                    row@,
                    t,
                    w as int,
                ) by {
                    lemma_count_update(pre, cell, i as int, t, w as int);
                }
                assert forall|k: int|
                    0 <= k < i + 1 && old(row)@[k].set_id == 0 implies count_set_to(
                    row@,
                    (#[trigger] row@[k]).set_id as int,
                    w as int,
                ) == 1 by {
                    lemma_count_update(pre, cell, i as int, row@[k].set_id as int, w as int);
                }
                // the fresh singleton is one more set; no other set changed
                assert forall|t: int|
                    1 <= t <= w as int && t != s as int implies ((#[trigger] count_set_to(
                    row@,
                    t,
                    w as int,
                )) > 0 <==> count_set_to(pre, t, w as int) > 0) by {
                    lemma_count_update(pre, cell, i as int, t, w as int);
                }
                lemma_num_sets_drop(row@, pre, s as int, w as int);
            }
        }
        i += 1;
    }
    proof {
        lemma_count_bounds(row@, 0, w as int);
        lemma_count_exists(row@, 0, w as int);
    }
}

/// One right-wall decision, at the boundary between columns `i` and
/// `i + 1`.  Cells of the same set are always separated by a wall (carving
/// there would close a loop); otherwise a biased coin either builds the
/// wall or unions the two sets and leaves the boundary open.
fn decide_boundary(
    row: &mut Vec<Cell>,
    counts: &mut Vec<usize>,
    orient: &MazeOrient,
    rng: &mut rand::rngs::ThreadRng,
    i: usize,
)
    requires
        old(row)@.len() >= 1,
        old(row)@.len() < usize::MAX,
        i + 1 < old(row)@.len(),
        ids_pos(old(row)@, old(row)@.len() as int),
        counts_ok(old(row)@, old(counts)@),
        !old(row)@[i as int].right_wall,
    ensures
        final(row)@.len() == old(row)@.len(),
        ids_pos(final(row)@, final(row)@.len() as int),
        counts_ok(final(row)@, final(counts)@),
        // a decision never leaves two same-set neighbours without a wall
        old(row)@[i as int].set_id == old(row)@[i + 1].set_id
            ==> final(row)@[i as int].right_wall,
        // an open boundary joins cells of one set
        !final(row)@[i as int].right_wall ==> final(row)@[i as int].set_id
            == final(row)@[i + 1].set_id,
        forall|j: int|
            0 <= j < old(row)@.len() ==> (#[trigger] final(row)@[j]).bottom_wall
                == old(row)@[j].bottom_wall,
        forall|j: int|
            0 <= j < old(row)@.len() && j != i
                ==> (#[trigger] final(row)@[j]).right_wall
                == old(row)@[j].right_wall,
        // cells of one set stay together under any union
        forall|j: int, k: int|
            0 <= j < old(row)@.len() && 0 <= k < old(row)@.len()
                && (#[trigger] old(row)@[j]).set_id
                == (#[trigger] old(row)@[k]).set_id
                ==> final(row)@[j].set_id == final(row)@[k].set_id,
        // a decision spends exactly one unit: it either closes the
        // boundary or merges two sets
        num_sets(final(row)@) + open_right_to(final(row)@, old(row)@.len() - 1)
            == num_sets(old(row)@) + open_right_to(old(row)@, old(row)@.len() - 1) - 1,
{
    let ghost w = old(row)@.len() as int;
    let si = row[i].set_id;
    let sj = row[i + 1].set_id;
    if si == sj || verticality(orient, rng, true) {
        row[i].right_wall = true;
        proof {
            lemma_counts_depend_on_ids(old(row)@, row@, counts@);
            assert(row@ =~= old(row)@.update(i as int, row@[i as int]));
            lemma_open_right_update(old(row)@, row@[i as int], i as int, w - 1);
            assert forall|s: int| 1 <= s <= w implies ((#[trigger] count_set_to(
                old(row)@,
                s,
                w,
            )) > 0 <==> count_set_to(row@, s, w) > 0) by {
                lemma_count_frame(old(row)@, row@, s, w);
            }
            lemma_num_sets_same(old(row)@, row@, w);
        }
    } else {
        proof {
            lemma_count_exists(old(row)@, si as int, w);
            lemma_count_exists(old(row)@, sj as int, w);
            assert(0 <= i < w && (old(row)@[i as int]).set_id as int == si as int);
            assert(0 <= i + 1 < w && (old(row)@[i + 1]).set_id as int == sj as int);
        }
        union_sets(row, counts, si, sj);
        proof {
            lemma_open_right_frame(old(row)@, row@, w - 1);
        }
    }
}

/// The counts table reads nothing but set ids, so it keeps mirroring the
/// row when only walls change.
proof fn lemma_counts_depend_on_ids(r1: Seq<Cell>, r2: Seq<Cell>, c: Seq<usize>)
    requires
        r1.len() == r2.len(),
        counts_ok(r1, c),
        forall|i: int| 0 <= i < r1.len() ==> (#[trigger] r1[i]).set_id == r2[i].set_id,
    ensures
        counts_ok(r2, c),
{
    assert forall|t: int| 0 <= t < c.len() implies (#[trigger] c[t]) as int
        == count_set_to(r2, t, r2.len() as int) by {
        lemma_count_frame(r1, r2, t, r1.len() as int);
    }
}

/// The right-wall step: walks the row's inner boundaries left to right and
/// decides each one.  Afterwards every open boundary joins two cells of
/// the same set, the rightmost cell still has its boundary wall, and the
/// counts table still mirrors the row.
fn carve_right_walls(
    row: &mut Vec<Cell>,
    counts: &mut Vec<usize>,
    orient: &MazeOrient,
    rng: &mut rand::rngs::ThreadRng,
)
    requires
        old(row)@.len() >= 1,
        old(row)@.len() < usize::MAX,
        ids_pos(old(row)@, old(row)@.len() as int),
        counts_ok(old(row)@, old(counts)@),
        old(row)@[old(row)@.len() - 1].right_wall,
        forall|j: int|
            0 <= j < old(row)@.len() - 1 ==> !(#[trigger] old(
                row,
            )@[j]).right_wall,
    ensures
        final(row)@.len() == old(row)@.len(),
        ids_pos(final(row)@, final(row)@.len() as int),
        counts_ok(final(row)@, final(counts)@),
        final(row)@[final(row)@.len() - 1].right_wall,
        forall|j: int|
            0 <= j < old(row)@.len() ==> (#[trigger] final(row)@[j]).bottom_wall
                == old(row)@[j].bottom_wall,
        forall|j: int|
            0 <= j < old(row)@.len() - 1
                && !(#[trigger] final(row)@[j]).right_wall
                ==> final(row)@[j].set_id == final(row)@[j + 1].set_id,
        // every carved boundary merged two sets: the sets that remain and
        // the boundaries left open add up to the sets the row came with
        num_sets(final(row)@) + open_right_to(final(row)@, old(row)@.len() - 1)
            == num_sets(old(row)@),
{
    let w = row.len();
    proof {
        lemma_open_right_full(old(row)@, w - 1);
    }
    let mut i: usize = 0;
    while i + 1 < w
        invariant
            i <= w - 1,
            w == row@.len() == old(row)@.len(),
            1 <= w < usize::MAX,
            ids_pos(row@, w as int),
            counts_ok(row@, counts@),
            row@[w - 1].right_wall,
            forall|j: int| i <= j < w - 1 ==> !(#[trigger] row@[j]).right_wall,
            forall|j: int|
                0 <= j < w ==> (#[trigger] row@[j]).bottom_wall == old(
                    row,
                )@[j].bottom_wall,
            forall|j: int|
                0 <= j < i && j < w - 1 && !(#[trigger] row@[j]).right_wall
                    ==> row@[j].set_id == row@[j + 1].set_id,
            num_sets(row@) + open_right_to(row@, w - 1) == num_sets(old(row)@) + (w - 1) - i,
        decreases w - i,
    {
        decide_boundary(row, counts, orient, rng, i);
        i += 1;
    }
}

/// The bottom-wall step: for each column in turn a biased coin proposes a
/// wall, but a wall is only built while the cell's set keeps more than one
/// open member.  Afterwards every set present in the row still has at
/// least one cell without a bottom wall — the downward-exit invariant.
fn place_bottom_walls(
    row: &mut Vec<Cell>,
    counts: &Vec<usize>,
    orient: &MazeOrient,
    rng: &mut rand::rngs::ThreadRng,
)
    requires
        old(row)@.len() >= 1,
        old(row)@.len() < usize::MAX,
        ids_pos(old(row)@, old(row)@.len() as int),
        counts_ok(old(row)@, counts@),
        forall|j: int| 0 <= j < old(row)@.len() ==> !(#[trigger] old(row)@[j]).bottom_wall,
    ensures
        final(row)@.len() == old(row)@.len(),
        ids_pos(final(row)@, final(row)@.len() as int),
        forall|j: int|
            0 <= j < old(row)@.len() ==> (#[trigger] final(row)@[j]).set_id
                == old(row)@[j].set_id && final(row)@[j].right_wall
                == old(row)@[j].right_wall,
        down_exit_ok(final(row)@),
        num_sets(final(row)@) == num_sets(old(row)@),
{
    let w = row.len();
    // the per-set number of members still open toward the next row
    let mut open: Vec<usize> = Vec::new();
    let mut t: usize = 0;
    while t < w + 1
        invariant
            t <= w + 1,
            w < usize::MAX,
            counts@.len() == w + 1,
            open@ == counts@.subrange(0, t as int),
        decreases w + 1 - t,
    {
        open.push(counts[t]);
        proof {
            assert(open@ =~= counts@.subrange(0, t + 1 as int));
        }
        t += 1;
    }
    proof {
        assert(open@ =~= counts@);
    }
    let mut i: usize = 0;
    while i < w
        invariant
            i <= w,
            w == row@.len() == old(row)@.len(),
            1 <= w < usize::MAX,
            ids_pos(row@, w as int),
            open@.len() == w + 1,
            forall|j: int|
                0 <= j < w ==> (#[trigger] row@[j]).set_id == old(row)@[j].set_id
                    && row@[j].right_wall == old(row)@[j].right_wall,
            forall|j: int| i <= j < w ==> !(#[trigger] row@[j]).bottom_wall,
            forall|s: int|
                0 <= s < w + 1 ==> (#[trigger] open@[s]) as int == count_open_to(row@, s, i as int)
                    + count_set_to(row@, s, w as int) - count_set_to(row@, s, i as int),
            forall|s: int|
                0 <= s < w + 1 && count_set_to(row@, s, w as int) > 0 ==> (#[trigger] open@[s])
                    >= 1,
        decreases w - i,
    {
        if verticality(orient, rng, false) {
            let s = row[i].set_id;
            if open[s] > 1 {
                let ghost pre = row@;
                row[i].bottom_wall = true;
                let os = open[s];
                open[s] = os - 1;
                proof {
                    let cell = row@[i as int];
                    assert(row@ =~= pre.update(i as int, cell));
                    assert forall|u: int| 0 <= u < w + 1 implies (#[trigger] open@[u]) as int
                        == count_open_to(row@, u, i + 1 as int) + count_set_to(row@, u, w as int)
                        - count_set_to(row@, u, i + 1 as int) by {
                        lemma_count_frame(pre, row@, u, i as int);
                        lemma_count_frame(pre, row@, u, i + 1 as int);
                        lemma_count_frame(pre, row@, u, w as int);
                        lemma_open_frame(pre, row@, u, i as int);
                    }
                    assert forall|u: int|
                        0 <= u < w + 1 && count_set_to(row@, u, w as int) > 0 implies (
                    #[trigger] open@[u]) >= 1 by {
                        lemma_count_frame(pre, row@, u, w as int);
                    }
                }
            }
        }
        proof {
            let ghost cur = row@;
            assert forall|u: int| 0 <= u < w + 1 implies (#[trigger] open@[u]) as int
                == count_open_to(cur, u, i + 1 as int) + count_set_to(cur, u, w as int)
                - count_set_to(cur, u, i + 1 as int) by {}
        }
        i += 1;
    }
    proof {
        assert forall|s: int| #[trigger] set_present(row@, s) implies set_has_down_exit(row@, s) by {
            let j = choose|j: int| 0 <= j < row@.len() && (#[trigger] row@[j]).set_id as int == s;
            assert(1 <= s <= w);
            lemma_count_exists(row@, s, w as int);
            assert(open@[s] >= 1);
            lemma_open_exists(row@, s, w as int);
        }
        assert forall|s: int| 1 <= s <= w as int implies ((#[trigger] count_set_to(
            old(row)@,
            s,
            w as int,
        )) > 0 <==> count_set_to(row@, s, w as int) > 0) by {
            lemma_count_frame(old(row)@, row@, s, w as int);
        }
        lemma_num_sets_same(old(row)@, row@, w as int);
    }
}

/// Prepares the live row for the next generation cycle: all right walls
/// come down (the rightmost boundary wall is restored afterwards), and a
/// cell that was sealed below loses its set — it starts the next row
/// unassigned — and its bottom wall.
fn reset_row(row: &mut Vec<Cell>)
    requires
        old(row)@.len() >= 1,
        ids_pos(old(row)@, old(row)@.len() as int),
        down_exit_ok(old(row)@),
    ensures
        final(row)@.len() == old(row)@.len(),
        ids_le(final(row)@, final(row)@.len() as int),
        final(row)@[final(row)@.len() - 1].right_wall,
        forall|j: int|
            0 <= j < old(row)@.len() - 1 ==> !(#[trigger] final(row)@[j]).right_wall,
        forall|j: int| 0 <= j < old(row)@.len() ==> !(#[trigger] final(row)@[j]).bottom_wall,
        forall|j: int|
            0 <= j < old(row)@.len() ==> (#[trigger] final(row)@[j]).set_id == (if old(
                row,
            )@[j].bottom_wall {
                0
            } else {
                old(row)@[j].set_id
            }),
        // the downward-exit invariant means no set dies with its row: the
        // sets that survive into the next cycle are exactly the old ones
        num_sets(final(row)@) == num_sets(old(row)@),
        count_set_to(final(row)@, 0, final(row)@.len() as int) == final(row)@.len()
            - open_bottom_to(old(row)@, old(row)@.len() as int),
{
    let w = row.len();
    let mut i: usize = 0;
    while i < w
        invariant
            i <= w,
            w == row@.len() == old(row)@.len(),
            1 <= w,
            forall|k: int| i <= k < w ==> #[trigger] row@[k] == old(row)@[k],
            forall|k: int| 0 <= k < i ==> !(#[trigger] row@[k]).right_wall,
            forall|k: int| 0 <= k < i ==> !(#[trigger] row@[k]).bottom_wall,
            forall|k: int|
                0 <= k < i ==> (#[trigger] row@[k]).set_id == (if old(row)@[k].bottom_wall {
                    0
                } else {
                    old(row)@[k].set_id
                }),
        decreases w - i,
    {
        row[i].right_wall = false;
        if row[i].bottom_wall {
            row[i].set_id = 0;
            row[i].bottom_wall = false;
        }
        i += 1;
    }
    row[w - 1].right_wall = true;
    proof {
        let rold = old(row)@;
        let rnew = row@;
        assert forall|s: int| 1 <= s <= w as int implies ((#[trigger] count_set_to(
            rold,
            s,
            w as int,
        )) > 0 <==> count_set_to(rnew, s, w as int) > 0) by {
            lemma_reset_counts(rold, rnew, s, w as int);
            lemma_open_le_count(rold, s, w as int);
            lemma_open_bounds(rold, s, w as int);
            if count_set_to(rold, s, w as int) > 0 {
                lemma_count_exists(rold, s, w as int);
                assert(set_present(rold, s));
                assert(set_has_down_exit(rold, s));
                lemma_open_exists(rold, s, w as int);
            }
        }
        lemma_num_sets_same(rold, rnew, w as int);
        lemma_reset_zero(rold, rnew, w as int);
    }
}

/// The closure step, run on the last row only: every cell is sealed
/// below, and wherever two neighbouring cells still belong to different
/// sets, the wall between them is removed and the sets are unioned.  The
/// whole row — and with it the whole maze — ends up in a single set.  No
/// random decisions are drawn here.
fn close_final_row(row: &mut Vec<Cell>, counts: &mut Vec<usize>)
    requires
        old(row)@.len() >= 1,
        old(row)@.len() < usize::MAX,
        ids_pos(old(row)@, old(row)@.len() as int),
        counts_ok(old(row)@, old(counts)@),
        old(row)@[old(row)@.len() - 1].right_wall,
        // an open boundary joins cells of one set (what the right-wall
        // step guarantees); without it a union could double-open a
        // boundary
        forall|j: int|
            0 <= j < old(row)@.len() - 1 && !(#[trigger] old(row)@[j]).right_wall ==> old(
                row,
            )@[j].set_id == old(row)@[j + 1].set_id,
    ensures
        final(row)@.len() == old(row)@.len(),
        ids_pos(final(row)@, final(row)@.len() as int),
        forall|j: int| 0 <= j < old(row)@.len() ==> (#[trigger] final(row)@[j]).bottom_wall,
        final(row)@[final(row)@.len() - 1].right_wall,
        // the closure only ever removes right walls
        forall|j: int|
            0 <= j < old(row)@.len() && (#[trigger] final(row)@[j]).right_wall ==> old(
                row,
            )@[j].right_wall,
        // the final row is one connected set
        forall|j: int, k: int|
            0 <= j < old(row)@.len() && 0 <= k < old(row)@.len()
                ==> (#[trigger] final(row)@[j]).set_id == (#[trigger] final(row)@[k]).set_id,
        // each of the other sets was merged away through one removed wall
        open_right_to(final(row)@, old(row)@.len() - 1) == open_right_to(
            old(row)@,
            old(row)@.len() - 1,
        ) + num_sets(old(row)@) - 1,
        open_bottom_to(final(row)@, final(row)@.len() as int) == 0,
{
    let w = row.len();
    let mut i: usize = 0;
    while i + 1 < w
        invariant
            i <= w - 1,
            w == row@.len() == old(row)@.len(),
            1 <= w < usize::MAX,
            ids_pos(row@, w as int),
            counts_ok(row@, counts@),
            forall|k: int| 0 <= k < i ==> (#[trigger] row@[k]).bottom_wall,
            forall|k: int| i <= k < w ==> (#[trigger] row@[k]).bottom_wall == old(row)@[k].bottom_wall,
            forall|k: int| i <= k < w ==> (#[trigger] row@[k]).right_wall == old(row)@[k].right_wall,
            forall|k: int|
                0 <= k < w && (#[trigger] row@[k]).right_wall ==> old(row)@[k].right_wall,
            forall|k: int|
                i <= k < w - 1 && !(#[trigger] row@[k]).right_wall ==> row@[k].set_id == row@[k
                    + 1].set_id,
            forall|j: int, k: int|
                0 <= j < i + 1 && 0 <= k < i + 1 ==> (#[trigger] row@[j]).set_id == (
                #[trigger] row@[k]).set_id,
            num_sets(row@) + open_right_to(row@, w - 1) == num_sets(old(row)@) + open_right_to(
                old(row)@,
                w - 1,
            ),
        decreases w - i,
    {
        let ghost pre = row@;
        row[i].bottom_wall = true;
        proof {
            lemma_counts_depend_on_ids(pre, row@, counts@);
            lemma_open_right_frame(pre, row@, w - 1);
            assert forall|s: int| 1 <= s <= w as int implies ((#[trigger] count_set_to(
                pre,
                s,
                w as int,
            )) > 0 <==> count_set_to(row@, s, w as int) > 0) by {
                lemma_count_frame(pre, row@, s, w as int);
            }
            lemma_num_sets_same(pre, row@, w as int);
        }
        let si = row[i].set_id;
        let sj = row[i + 1].set_id;
        if si != sj {
            let ghost pre2 = row@;
            row[i].right_wall = false;
            proof {
                // neighbours of different sets are still walled apart, so
                // this removal opens the boundary
                assert(pre2[i as int].right_wall);
                lemma_counts_depend_on_ids(pre2, row@, counts@);
                assert(row@ =~= pre2.update(i as int, row@[i as int]));
                lemma_open_right_update(pre2, row@[i as int], i as int, w - 1);
                assert forall|s: int| 1 <= s <= w as int implies ((#[trigger] count_set_to(
                    pre2,
                    s,
                    w as int,
                )) > 0 <==> count_set_to(row@, s, w as int) > 0) by {
                    lemma_count_frame(pre2, row@, s, w as int);
                }
                lemma_num_sets_same(pre2, row@, w as int);
                lemma_count_exists(row@, si as int, w as int);
                lemma_count_exists(row@, sj as int, w as int);
                assert(0 <= i < w as int && (row@[i as int]).set_id as int == si as int);
                assert(0 <= i + 1 < w as int && (row@[i + 1]).set_id as int == sj as int);
            }
            let ghost pre3 = row@;
            union_sets(row, counts, si, sj);
            proof {
                lemma_open_right_frame(pre3, row@, w - 1);
            }
        }
        i += 1;
    }
    let ghost pre_last = row@;
    row[w - 1].bottom_wall = true;
    proof {
        lemma_open_right_frame(pre_last, row@, w - 1);
        assert forall|s: int| 1 <= s <= w as int implies ((#[trigger] count_set_to(
            pre_last,
            s,
            w as int,
        )) > 0 <==> count_set_to(row@, s, w as int) > 0) by {
            lemma_count_frame(pre_last, row@, s, w as int);
        }
        lemma_num_sets_same(pre_last, row@, w as int);
        // the whole row is one set now
        let s0 = row@[0].set_id as int;
        lemma_count_exists(row@, s0, w as int);
        assert(0 <= 0 < w as int && row@[0].set_id as int == s0);
        assert forall|s: int|
            1 <= s <= w as int && s != s0 implies (#[trigger] count_set_to(row@, s, w as int))
            <= 0 by {
            lemma_count_bounds(row@, s, w as int);
            if count_set_to(row@, s, w as int) > 0 {
                lemma_count_exists(row@, s, w as int);
                let j = choose|j: int| 0 <= j < w as int && (#[trigger] row@[j]).set_id as int == s;
                assert(row@[j].set_id == row@[0].set_id);
                assert(false);
            }
        }
        lemma_num_sets_single(row@, s0, w as int);
        lemma_open_bottom_zero(row@, w as int);
    }
}

/// Two rows that agree cell for cell on a prefix have the same open count.
proof fn lemma_open_frame(r1: Seq<Cell>, r2: Seq<Cell>, s: int, n: int)
    requires
        0 <= n,
        n <= r1.len(),
        n <= r2.len(),
        forall|i: int| 0 <= i < n ==> #[trigger] r1[i] == r2[i],
    ensures
        count_open_to(r1, s, n) == count_open_to(r2, s, n),
    decreases n,
{
    if n > 0 {
        lemma_open_frame(r1, r2, s, n - 1);
    }
}

/// The final tally: when the closure has merged the last row into one
/// set, the maze's passages add up to one fewer than its cells — the
/// spanning-tree count.
proof fn lemma_total_passages(
    maze0: Seq<Vec<Cell>>,
    maze1: Seq<Vec<Cell>>,
    row0: Seq<Cell>,
    rowc: Seq<Cell>,
    rowb: Seq<Cell>,
    fin: Seq<Cell>,
    w: int,
    h: int,
)
    requires
        w >= 1,
        h >= 1,
        maze0.len() == h - 1,
        maze1.len() == h,
        forall|j: int| 0 <= j < h - 1 ==> #[trigger] maze1[j] == maze0[j],
        maze1[h - 1]@ == fin,
        fin.len() == w,
        rowc.len() == w,
        rowb.len() == w,
        passages_to(maze0, h - 1) + num_sets(row0) + count_set_to(row0, 0, w) == (h - 1) * w + w,
        num_sets(rowc) + open_right_to(rowc, w - 1) == num_sets(row0) + count_set_to(row0, 0, w),
        forall|j: int| 0 <= j < w ==> (#[trigger] rowb[j]).right_wall == rowc[j].right_wall,
        num_sets(rowb) == num_sets(rowc),
        open_right_to(fin, w - 1) == open_right_to(rowb, w - 1) + num_sets(rowb) - 1,
        open_bottom_to(fin, w) == 0,
    ensures
        passages_to(maze1, h) == w * h - 1,
{
    lemma_passages_frame(maze0, maze1, h - 1);
    lemma_open_right_frame(rowc, rowb, w - 1);
    assert(passages_to(maze1, h) == passages_to(maze1, h - 1) + row_passages(fin));
    assert(row_passages(fin) == open_right_to(fin, w - 1) + open_bottom_to(fin, w));
    assert(passages_to(maze1, h) == (h - 1) * w + w - 1);
    assert((h - 1) * w + w == w * h) by (nonlinear_arith);
}

impl EllerMaze {
    /// Generates a `width` by `height` perfect maze with Eller's
    /// algorithm, drawing wall decisions from the thread-local random
    /// generator under the given orientation bias.
    ///
    /// Whatever the random draws were, the result has `height` rows of
    /// `width` cells; the rightmost cell of every row keeps its boundary
    /// wall and the last row is sealed below; every archived set kept a
    /// passage downward (no region is ever isolated); within a row an
    /// open boundary only ever joins cells of one set (no loop is carved);
    /// the closure has merged the last row into a single set; and the
    /// passage graph has exactly `width * height - 1` edges — the count
    /// of a spanning tree over the cells.
    #[verifier::rlimit(50)]
    #[verifier::spinoff_prover]
    pub fn generate(width: usize, height: usize, orient: MazeOrient) -> (m: EllerMaze)
        requires
            1 <= width,
            width < usize::MAX,
            1 <= height,
        ensures
            m.maze@.len() == height as int,
            forall|t: int| 0 <= t < height ==> (#[trigger] m.maze@[t])@.len() == width as int,
            forall|t: int|
                0 <= t < height ==> (#[trigger] m.maze@[t])@[width - 1].right_wall,
            forall|j: int| 0 <= j < width ==> (#[trigger] m.maze@[height - 1]@[j]).bottom_wall,
            forall|t: int| 0 <= t < height - 1 ==> #[trigger] down_exit_ok(m.maze@[t]@),
            forall|t: int, j: int|
                0 <= t < height && 0 <= j < width - 1 && !(#[trigger] m.maze@[t]@[j]).right_wall
                    ==> m.maze@[t]@[j].set_id == m.maze@[t]@[j + 1].set_id,
            forall|j: int, k: int|
                0 <= j < width && 0 <= k < width ==> (#[trigger] m.maze@[height - 1]@[j]).set_id
                    == (#[trigger] m.maze@[height - 1]@[k]).set_id,
            // the passage graph is a spanning tree: together with full
            // connectivity, exactly one wall is missing per cell but one
            maze_passages(m.maze@) == width as int * height as int - 1,
    {
        let mut rng = fresh_rng();
        let mut maze: Vec<Vec<Cell>> = Vec::new();
        // the first row starts with every cell unassigned and only the
        // rightmost boundary wall up
        let mut row: Vec<Cell> = Vec::new();
        let mut i: usize = 0;
        while i < width
            invariant
                i <= width,
                row@.len() == i as int,
                forall|k: int|
                    0 <= k < i ==> !(#[trigger] row@[k]).right_wall && !row@[k].bottom_wall
                        && row@[k].set_id == 0,
            decreases width - i,
        {
            row.push(Cell { set_id: 0, right_wall: false, bottom_wall: false });
            i += 1;
        }
        row[width - 1].right_wall = true;
        proof {
            // no set exists yet and every cell waits for one
            lemma_count_all(row@, 0, width as int);
            assert forall|s: int|
                1 <= s <= width as int implies (#[trigger] count_set_to(
                row@,
                s,
                width as int,
            )) <= 0 by {
                lemma_count_bounds(row@, s, width as int);
                if count_set_to(row@, s, width as int) > 0 {
                    lemma_count_exists(row@, s, width as int);
                    assert(false);
                }
            }
            lemma_num_sets_none(row@, width as int);
        }
        let mut r: usize = 0;
        while r + 1 < height
            invariant
                r < height,
                1 <= width < usize::MAX,
                1 <= height,
                row@.len() == width as int,
                ids_le(row@, width as int),
                row@[width - 1].right_wall,
                forall|j: int| 0 <= j < width - 1 ==> !(#[trigger] row@[j]).right_wall,
                forall|j: int| 0 <= j < width ==> !(#[trigger] row@[j]).bottom_wall,
                maze@.len() == r as int,
                forall|t: int| 0 <= t < r ==> (#[trigger] maze@[t])@.len() == width as int,
                forall|t: int| 0 <= t < r ==> (#[trigger] maze@[t])@[width - 1].right_wall,
                forall|t: int| 0 <= t < r ==> #[trigger] down_exit_ok(maze@[t]@),
                forall|t: int, j: int|
                    0 <= t < r && 0 <= j < width - 1 && !(#[trigger] maze@[t]@[j]).right_wall
                        ==> maze@[t]@[j].set_id == maze@[t]@[j + 1].set_id,
                // passage bookkeeping: every passage so far either merged
                // two of the live row's sets or will feed a fresh one
                passages_to(maze@, r as int) + num_sets(row@) + count_set_to(
                    row@,
                    0,
                    width as int,
                ) == r as int * width as int + width,
            decreases height - 1 - r,
        {
            let ghost maze0 = maze@;
            let mut counts = rebuild_counts(&row);
            assign_sets(&mut row, &mut counts);
            carve_right_walls(&mut row, &mut counts, &orient, &mut rng);
            let ghost row_carved = row@;
            place_bottom_walls(&mut row, &counts, &orient, &mut rng);
            let ghost row_bottom = row@;
            let archived = copy_row(&row);
            maze.push(archived);
            reset_row(&mut row);
            proof {
                lemma_passages_frame(maze0, maze@, r as int);
                lemma_open_right_frame(row_carved, row_bottom, width - 1);
                assert((r as int + 1) * width as int == r as int * width as int
                    + width as int) by (nonlinear_arith);
            }
            r += 1;
        }
        let ghost maze0 = maze@;
        let ghost row0 = row@;
        let mut counts = rebuild_counts(&row);
        assign_sets(&mut row, &mut counts);
        carve_right_walls(&mut row, &mut counts, &orient, &mut rng);
        let ghost row_carved = row@;
        place_bottom_walls(&mut row, &counts, &orient, &mut rng);
        proof {
            lemma_counts_depend_on_ids(row_carved, row@, counts@);
        }
        let ghost row_bottom = row@;
        close_final_row(&mut row, &mut counts);
        maze.push(row);
        proof {
            let h = height as int;
            let w = width as int;
            lemma_total_passages(
                maze0,
                maze@,
                row0,
                row_carved,
                row_bottom,
                maze@[h - 1]@,
                w,
                h,
            );
            assert(maze@.len() == h);
            assert(maze_passages(maze@) == passages_to(maze@, h));
        }
        EllerMaze { maze }
    }
}

} // verus!
