use vstd::prelude::*;
use crate::grid::Cell;

verus! {

/// How many cells among the first `n` of the row belong to set `s`.
pub open spec fn count_set_to(r: Seq<Cell>, s: int, n: int) -> int
    decreases n,
{
    if n <= 0 {
        0
    } else {
        count_set_to(r, s, n - 1) + if r[n - 1].set_id as int == s {
            1int
        } else {
            0int
        }
    }
}

/// How many cells among the first `n` of the row belong to set `s` and
/// still lack a bottom wall.
pub open spec fn count_open_to(r: Seq<Cell>, s: int, n: int) -> int
    decreases n,
{
    if n <= 0 {
        0
    } else {
        count_open_to(r, s, n - 1)
            + if r[n - 1].set_id as int == s && !r[n - 1].bottom_wall {
            1int
        } else {
            0int
        }
    }
}

/// The sum of the per-set counts over set ids `1..=smax`.
pub open spec fn sum_counts_to(r: Seq<Cell>, smax: int, n: int) -> int
    decreases smax,
{
    if smax <= 0 {
        0
    } else {
        sum_counts_to(r, smax - 1, n) + count_set_to(r, smax, n)
    }
}

/// How many distinct sets with ids in `1..=smax` have members in the row.
pub open spec fn num_sets_to(r: Seq<Cell>, smax: int) -> int
    decreases smax,
{
    if smax <= 0 {
        0
    } else {
        num_sets_to(r, smax - 1) + if count_set_to(r, smax, r.len() as int) > 0 {
            1int
        } else {
            0int
        }
    }
}

/// How many distinct sets are present in the row (set ids range over
/// `1..=row.len()`; id 0 marks an unassigned cell and is no set).
pub open spec fn num_sets(r: Seq<Cell>) -> int {
    num_sets_to(r, r.len() as int)
}

/// How many of the first `n` boundaries are open: cells without a right
/// wall.
pub open spec fn open_right_to(r: Seq<Cell>, n: int) -> int
    decreases n,
{
    if n <= 0 {
        0
    } else {
        open_right_to(r, n - 1) + if !r[n - 1].right_wall {
            1int
        } else {
            0int
        }
    }
}

/// How many of the first `n` cells are open downward: cells without a
/// bottom wall.
pub open spec fn open_bottom_to(r: Seq<Cell>, n: int) -> int
    decreases n,
{
    if n <= 0 {
        0
    } else {
        open_bottom_to(r, n - 1) + if !r[n - 1].bottom_wall {
            1int
        } else {
            0int
        }
    }
}

/// The passages one row contributes to the maze's passage graph: its open
/// inner boundaries (the rightmost cell's wall faces the outside) plus its
/// openings toward the row below.
pub open spec fn row_passages(r: Seq<Cell>) -> int {
    open_right_to(r, r.len() - 1) + open_bottom_to(r, r.len() as int)
}

/// The passages of the first `t` rows of the maze.
pub open spec fn passages_to(m: Seq<Vec<Cell>>, t: int) -> int
    decreases t,
{
    if t <= 0 {
        0
    } else {
        passages_to(m, t - 1) + row_passages(m[t - 1]@)
    }
}

/// The total number of passages of a maze: every missing inner right wall
/// and every missing bottom wall is one edge of the passage graph.
pub open spec fn maze_passages(m: Seq<Vec<Cell>>) -> int {
    passages_to(m, m.len() as int)
}

/// The counts table mirrors the row: entry `s` holds the number of cells
/// whose set id is `s`.  The table has one entry for each candidate id in
/// `0..=row.len()`.
pub open spec fn counts_ok(r: Seq<Cell>, c: Seq<usize>) -> bool {
    &&& c.len() == r.len() + 1
    &&& forall|s: int|
        0 <= s < c.len() ==> (#[trigger] c[s]) as int == count_set_to(
            r,
            s,
            r.len() as int,
        )
}

pub proof fn lemma_count_bounds(r: Seq<Cell>, s: int, n: int)
    requires
        0 <= n,
    ensures
        0 <= count_set_to(r, s, n) <= n,
    decreases n,
{
    if n > 0 {
        lemma_count_bounds(r, s, n - 1);
    }
}

/// Two rows that agree on set ids over a prefix have the same counts there.
pub proof fn lemma_count_frame(r1: Seq<Cell>, r2: Seq<Cell>, s: int, n: int)
    requires
        0 <= n,
        n <= r1.len(),
        n <= r2.len(),
        forall|i: int| 0 <= i < n ==> (#[trigger] r1[i]).set_id == r2[i].set_id,
    ensures
        count_set_to(r1, s, n) == count_set_to(r2, s, n),
    decreases n,
{
    if n > 0 {
        lemma_count_frame(r1, r2, s, n - 1);
    }
}

/// Replacing the cell at `k` changes each count by the obvious amount.
pub proof fn lemma_count_update(r: Seq<Cell>, c: Cell, k: int, s: int, n: int)
    requires
        0 <= k < r.len(),
        0 <= n <= r.len(),
    ensures
        count_set_to(r.update(k, c), s, n) == count_set_to(r, s, n) + (if k < n
            && c.set_id as int == s {
            1int
        } else {
            0int
        }) - (if k < n && r[k].set_id as int == s {
            1int
        } else {
            0int
        }),
    decreases n,
{
    if n > 0 {
        lemma_count_update(r, c, k, s, n - 1);
    }
}

/// A count is positive exactly when the set has a member in the prefix.
pub proof fn lemma_count_exists(r: Seq<Cell>, s: int, n: int)
    requires
        0 <= n <= r.len(),
    ensures
        count_set_to(r, s, n) > 0 <==> exists|i: int|
            0 <= i < n && (#[trigger] r[i]).set_id as int == s,
    decreases n,
{
    if n > 0 {
        lemma_count_exists(r, s, n - 1);
        lemma_count_bounds(r, s, n - 1);
        if r[n - 1].set_id as int == s {
            assert(0 <= n - 1 < n && r[n - 1].set_id as int == s);
        }
    }
}

/// An open count is positive exactly when the set has an open member.
pub proof fn lemma_open_exists(r: Seq<Cell>, s: int, n: int)
    requires
        0 <= n <= r.len(),
    ensures
        count_open_to(r, s, n) > 0 <==> exists|i: int|
            0 <= i < n && (#[trigger] r[i]).set_id as int == s
                && !r[i].bottom_wall,
    decreases n,
{
    if n > 0 {
        lemma_open_exists(r, s, n - 1);
        lemma_open_bounds(r, s, n - 1);
        if r[n - 1].set_id as int == s && !r[n - 1].bottom_wall {
            assert(0 <= n - 1 < n && r[n - 1].set_id as int == s && !r[n
                - 1].bottom_wall);
        }
    }
}

pub proof fn lemma_open_bounds(r: Seq<Cell>, s: int, n: int)
    requires
        0 <= n,
    ensures
        0 <= count_open_to(r, s, n) <= n,
    decreases n,
{
    if n > 0 {
        lemma_open_bounds(r, s, n - 1);
    }
}

/// Two distinct sets cannot together hold more cells than the prefix has.
pub proof fn lemma_count_pair_le(r: Seq<Cell>, s: int, t: int, n: int)
    requires
        s != t,
        0 <= n <= r.len(),
    ensures
        count_set_to(r, s, n) + count_set_to(r, t, n) <= n,
    decreases n,
{
    if n > 0 {
        lemma_count_pair_le(r, s, t, n - 1);
    }
}

/// Extending the prefix by one cell raises the sum over `1..=smax` exactly
/// when that cell's set id lies in `1..=smax`.
pub proof fn lemma_sum_step(r: Seq<Cell>, smax: int, n: int)
    requires
        0 <= smax,
        1 <= n <= r.len(),
    ensures
        sum_counts_to(r, smax, n) == sum_counts_to(r, smax, n - 1) + (if 1 <= r[
            n - 1].set_id as int <= smax {
            1int
        } else {
            0int
        }),
    decreases smax,
{
    if smax > 0 {
        lemma_sum_step(r, smax - 1, n);
    }
}

pub proof fn lemma_sum_zero(r: Seq<Cell>, smax: int)
    requires
        0 <= smax,
    ensures
        sum_counts_to(r, smax, 0) == 0,
    decreases smax,
{
    if smax > 0 {
        lemma_sum_zero(r, smax - 1);
    }
}

/// Every cell of the prefix is counted exactly once: either it is still
/// unassigned (set id 0) or it lies in exactly one of the sets `1..=smax`.
pub proof fn lemma_sum_total(r: Seq<Cell>, smax: int, n: int)
    requires
        0 <= n <= r.len(),
        0 <= smax,
        forall|i: int| 0 <= i < n ==> (#[trigger] r[i]).set_id as int <= smax,
    ensures
        sum_counts_to(r, smax, n) + count_set_to(r, 0, n) == n,
    decreases n,
{
    if n == 0 {
        lemma_sum_zero(r, smax);
    } else {
        lemma_sum_total(r, smax, n - 1);
        lemma_sum_step(r, smax, n);
    }
}

/// If every set id in `1..=smax` is in use, the sum is at least `smax`.
pub proof fn lemma_sum_lower(r: Seq<Cell>, smax: int, n: int)
    requires
        0 <= n <= r.len(),
        0 <= smax,
        forall|s: int| 1 <= s <= smax ==> #[trigger] count_set_to(r, s, n) != 0,
    ensures
        sum_counts_to(r, smax, n) >= smax,
    decreases smax,
{
    if smax > 0 {
        lemma_sum_lower(r, smax - 1, n);
        lemma_count_bounds(r, smax, n);
    }
}

/// Pigeonhole for fresh set ids: while some cell is still unassigned, one
/// of the ids `1..=w` is free.
pub proof fn lemma_free_id_exists(r: Seq<Cell>, w: int)
    requires
        r.len() == w,
        w >= 1,
        forall|i: int| 0 <= i < r.len() ==> (#[trigger] r[i]).set_id as int <= w,
        count_set_to(r, 0, w) >= 1,
    ensures
        exists|s: int| 1 <= s <= w && #[trigger] count_set_to(r, s, w) == 0,
{
    if !(exists|s: int| 1 <= s <= w && #[trigger] count_set_to(r, s, w) == 0) {
        assert(forall|s: int|
            1 <= s <= w ==> #[trigger] count_set_to(r, s, w) != 0);
        lemma_sum_lower(r, w, w);
        lemma_sum_total(r, w, w);
        assert(false);
    }
}

/// A set cannot have more open members than members.
pub proof fn lemma_open_le_count(r: Seq<Cell>, s: int, n: int)
    requires
        0 <= n,
    ensures
        count_open_to(r, s, n) <= count_set_to(r, s, n),
    decreases n,
{
    if n > 0 {
        lemma_open_le_count(r, s, n - 1);
    }
}

/// Rows in which the same sets are present have the same number of sets.
pub proof fn lemma_num_sets_same(r1: Seq<Cell>, r2: Seq<Cell>, smax: int)
    requires
        0 <= smax,
        forall|s: int|
            1 <= s <= smax ==> ((#[trigger] count_set_to(r1, s, r1.len() as int)) > 0
                <==> count_set_to(r2, s, r2.len() as int) > 0),
    ensures
        num_sets_to(r1, smax) == num_sets_to(r2, smax),
    decreases smax,
{
    if smax > 0 {
        lemma_num_sets_same(r1, r2, smax - 1);
    }
}

/// If exactly one set (`s0`) is present in `r1` but empty in `r2`, and
/// every other set is present in one exactly when it is present in the
/// other, then `r1` has one set more.
pub proof fn lemma_num_sets_drop(r1: Seq<Cell>, r2: Seq<Cell>, s0: int, smax: int)
    requires
        1 <= s0 <= smax,
        count_set_to(r1, s0, r1.len() as int) > 0,
        count_set_to(r2, s0, r2.len() as int) <= 0,
        forall|s: int|
            1 <= s <= smax && s != s0 ==> ((#[trigger] count_set_to(r1, s, r1.len() as int)) > 0
                <==> count_set_to(r2, s, r2.len() as int) > 0),
    ensures
        num_sets_to(r1, smax) == num_sets_to(r2, smax) + 1,
    decreases smax,
{
    if smax > 0 {
        if smax == s0 {
            lemma_num_sets_same(r1, r2, smax - 1);
        } else {
            lemma_num_sets_drop(r1, r2, s0, smax - 1);
        }
    }
}

/// A row in which every cell carries one and the same set id holds exactly
/// one set.
pub proof fn lemma_num_sets_single(r: Seq<Cell>, s0: int, smax: int)
    requires
        1 <= s0 <= smax,
        count_set_to(r, s0, r.len() as int) > 0,
        forall|s: int|
            1 <= s <= smax && s != s0 ==> (#[trigger] count_set_to(r, s, r.len() as int)) <= 0,
    ensures
        num_sets_to(r, smax) == 1,
    decreases smax,
{
    if smax == s0 {
        lemma_num_sets_none(r, smax - 1);
    } else {
        lemma_num_sets_single(r, s0, smax - 1);
    }
}

/// A row in which no set of `1..=smax` has a member holds no sets.
pub proof fn lemma_num_sets_none(r: Seq<Cell>, smax: int)
    requires
        forall|s: int| 1 <= s <= smax ==> (#[trigger] count_set_to(r, s, r.len() as int)) <= 0,
    ensures
        num_sets_to(r, smax) == 0,
    decreases smax,
{
    if smax > 0 {
        lemma_num_sets_none(r, smax - 1);
    }
}

/// A prefix of cells all in set `s` counts fully toward that set.
pub proof fn lemma_count_all(r: Seq<Cell>, s: int, n: int)
    requires
        0 <= n <= r.len(),
        forall|i: int| 0 <= i < n ==> (#[trigger] r[i]).set_id as int == s,
    ensures
        count_set_to(r, s, n) == n,
    decreases n,
{
    if n > 0 {
        lemma_count_all(r, s, n - 1);
    }
}

/// Rows that agree on right walls over a prefix have the same number of
/// open boundaries there.
pub proof fn lemma_open_right_frame(r1: Seq<Cell>, r2: Seq<Cell>, n: int)
    requires
        0 <= n,
        n <= r1.len(),
        n <= r2.len(),
        forall|i: int| 0 <= i < n ==> (#[trigger] r1[i]).right_wall == r2[i].right_wall,
    ensures
        open_right_to(r1, n) == open_right_to(r2, n),
    decreases n,
{
    if n > 0 {
        lemma_open_right_frame(r1, r2, n - 1);
    }
}

/// Replacing the cell at `k` changes the open-boundary count by the
/// obvious amount.
pub proof fn lemma_open_right_update(r: Seq<Cell>, c: Cell, k: int, n: int)
    requires
        0 <= k < r.len(),
        0 <= n <= r.len(),
    ensures
        open_right_to(r.update(k, c), n) == open_right_to(r, n) + (if k < n && !c.right_wall {
            1int
        } else {
            0int
        }) - (if k < n && !r[k].right_wall {
            1int
        } else {
            0int
        }),
    decreases n,
{
    if n > 0 {
        lemma_open_right_update(r, c, k, n - 1);
    }
}

/// A row that is sealed below everywhere has no downward openings.
pub proof fn lemma_open_bottom_zero(r: Seq<Cell>, n: int)
    requires
        0 <= n <= r.len(),
        forall|i: int| 0 <= i < n ==> (#[trigger] r[i]).bottom_wall,
    ensures
        open_bottom_to(r, n) == 0,
    decreases n,
{
    if n > 0 {
        lemma_open_bottom_zero(r, n - 1);
    }
}

/// A stretch of boundaries all without walls is fully open.
pub proof fn lemma_open_right_full(r: Seq<Cell>, n: int)
    requires
        0 <= n <= r.len(),
        forall|i: int| 0 <= i < n ==> !(#[trigger] r[i]).right_wall,
    ensures
        open_right_to(r, n) == n,
    decreases n,
{
    if n > 0 {
        lemma_open_right_full(r, n - 1);
    }
}

/// After the row reset, set `s` holds exactly the cells that were open
/// below: sealed cells lost their set.
pub proof fn lemma_reset_counts(r1: Seq<Cell>, r2: Seq<Cell>, s: int, n: int)
    requires
        1 <= s,
        0 <= n,
        n <= r1.len(),
        n <= r2.len(),
        forall|i: int|
            0 <= i < n ==> (#[trigger] r2[i]).set_id == (if r1[i].bottom_wall {
                0
            } else {
                r1[i].set_id
            }),
    ensures
        count_set_to(r2, s, n) == count_open_to(r1, s, n),
    decreases n,
{
    if n > 0 {
        lemma_reset_counts(r1, r2, s, n - 1);
    }
}

/// After the row reset, the unassigned cells are exactly the ones that
/// were sealed below.
pub proof fn lemma_reset_zero(r1: Seq<Cell>, r2: Seq<Cell>, n: int)
    requires
        0 <= n,
        n <= r1.len(),
        n <= r2.len(),
        forall|i: int| 0 <= i < n ==> (#[trigger] r1[i]).set_id >= 1,
        forall|i: int|
            0 <= i < n ==> (#[trigger] r2[i]).set_id == (if r1[i].bottom_wall {
                0
            } else {
                r1[i].set_id
            }),
    ensures
        count_set_to(r2, 0, n) == n - open_bottom_to(r1, n),
    decreases n,
{
    if n > 0 {
        lemma_reset_zero(r1, r2, n - 1);
        lemma_open_bottom_bounds(r1, n - 1);
    }
}

pub proof fn lemma_open_bottom_bounds(r: Seq<Cell>, n: int)
    requires
        0 <= n,
    ensures
        0 <= open_bottom_to(r, n) <= n,
    decreases n,
{
    if n > 0 {
        lemma_open_bottom_bounds(r, n - 1);
    }
}

/// Mazes that agree on their first `t` rows have the same passage count
/// there.
pub proof fn lemma_passages_frame(m1: Seq<Vec<Cell>>, m2: Seq<Vec<Cell>>, t: int)
    requires
        0 <= t,
        t <= m1.len(),
        t <= m2.len(),
        forall|j: int| 0 <= j < t ==> #[trigger] m1[j] == m2[j],
    ensures
        passages_to(m1, t) == passages_to(m2, t),
    decreases t,
{
    if t > 0 {
        lemma_passages_frame(m1, m2, t - 1);
    }
}

/// Relabelling every member of `merge` to `keep` moves the whole count of
/// `merge` onto `keep` and leaves every other set untouched.
pub proof fn lemma_count_relabel(
    r1: Seq<Cell>,
    r2: Seq<Cell>,
    keep: int,
    merge: int,
    n: int,
)
    requires
        keep != merge,
        r1.len() == r2.len(),
        0 <= n <= r1.len(),
        forall|i: int|
            0 <= i < n ==> (#[trigger] r2[i]).set_id as int == (if r1[
                i
            ].set_id as int == merge {
                keep
            } else {
                r1[i].set_id as int
            }),
    ensures
        count_set_to(r2, keep, n) == count_set_to(r1, keep, n) + count_set_to(
            r1,
            merge,
            n,
        ),
        count_set_to(r2, merge, n) == 0,
        forall|t: int|
            t != keep && t != merge ==> #[trigger] count_set_to(r2, t, n)
                == count_set_to(r1, t, n),
    decreases n,
{
    if n > 0 {
        lemma_count_relabel(r1, r2, keep, merge, n - 1);
        assert forall|t: int| t != keep && t != merge implies #[trigger] count_set_to(r2, t, n)
            == count_set_to(r1, t, n) by {
            assert(count_set_to(r2, t, n - 1) == count_set_to(r1, t, n - 1));
        }
    }
}

} // verus!
