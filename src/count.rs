use vstd::prelude::*;

verus! {

/// Which storage positions a count looks at: every position (`0`), the
/// positions of logical cells, odd in both coordinates (`1`), or all others,
/// the walls (`2`).
pub open spec fn selected(sel: int, i: int, j: int) -> bool {
    if sel == 1 {
        i % 2 == 1 && j % 2 == 1
    } else if sel == 2 {
        !(i % 2 == 1 && j % 2 == 1)
    } else {
        true
    }
}

/// The number of selected positions `(i, j)`, `j < n`, of `row` that hold `t`.
pub open spec fn count_row<T>(row: Seq<T>, i: int, n: int, t: T, sel: int) -> nat
    decreases n,
{
    if n <= 0 {
        0
    } else {
        count_row(row, i, n - 1, t, sel) + if selected(sel, i, n - 1) && row[n - 1] == t {
            1nat
        } else {
            0nat
        }
    }
}

/// The number of selected positions `(i, j)`, `i < m`, `j < n`, of `g` that
/// hold `t`.
pub open spec fn count_grid<T>(g: Seq<Seq<T>>, m: int, n: int, t: T, sel: int) -> nat
    decreases m,
{
    if m <= 0 {
        0
    } else {
        count_grid(g, m - 1, n, t, sel) + count_row(g[m - 1], m - 1, n, t, sel)
    }
}

/// The change of a count when position `(i0, j0)` of `g` is overwritten.
pub open spec fn count_delta<T>(g: Seq<Seq<T>>, i0: int, j0: int, v: T, t: T, sel: int) -> int {
    if selected(sel, i0, j0) {
        (if v == t { 1int } else { 0int }) - (if g[i0][j0] == t { 1int } else { 0int })
    } else {
        0
    }
}

pub proof fn lemma_count_row_update<T>(row: Seq<T>, i: int, n: int, j0: int, v: T, t: T, sel: int)
    requires
        0 <= n <= row.len(),
        0 <= j0 < row.len(),
    ensures
        count_row(row.update(j0, v), i, n, t, sel) == count_row(row, i, n, t, sel) + if j0 < n
            && selected(sel, i, j0) {
            (if v == t { 1int } else { 0int }) - (if row[j0] == t { 1int } else { 0int })
        } else {
            0int
        },
    decreases n,
{
    if n > 0 {
        lemma_count_row_update(row, i, n - 1, j0, v, t, sel);
    }
}

pub proof fn lemma_count_row_same<T>(r1: Seq<T>, r2: Seq<T>, i: int, n: int, t: T, sel: int)
    requires
        0 <= n <= r1.len(),
        n <= r2.len(),
        forall|j: int| 0 <= j < n ==> r1[j] == r2[j],
    ensures
        count_row(r1, i, n, t, sel) == count_row(r2, i, n, t, sel),
    decreases n,
{
    if n > 0 {
        lemma_count_row_same(r1, r2, i, n - 1, t, sel);
    }
}

/// Overwriting position `(i0, j0)` changes the count by `count_delta`.
pub proof fn lemma_count_update<T>(g: Seq<Seq<T>>, m: int, n: int, i0: int, j0: int, v: T, t: T, sel: int)
    requires
        0 <= i0 < m <= g.len(),
        0 <= j0 < n <= g[i0].len(),
        forall|i: int| 0 <= i < m ==> n <= (#[trigger] g[i]).len(),
    ensures
        count_grid(g.update(i0, g[i0].update(j0, v)), m, n, t, sel) == count_grid(g, m, n, t, sel)
            + count_delta(g, i0, j0, v, t, sel),
    decreases m,
{
    let g2 = g.update(i0, g[i0].update(j0, v));
    if m - 1 == i0 {
        lemma_count_grid_same(g, g2, m - 1, n, t, sel);
        lemma_count_row_update(g[i0], i0, n, j0, v, t, sel);
    } else {
        lemma_count_update(g, m - 1, n, i0, j0, v, t, sel);
        assert(g2[m - 1] == g[m - 1]);
    }
}

/// A count over positions outside the update is unchanged.
pub proof fn lemma_count_update_outside<T>(g: Seq<Seq<T>>, m: int, n: int, i0: int, j0: int, v: T, t: T, sel: int)
    requires
        0 <= i0 < g.len(),
        0 <= j0 < g[i0].len(),
        m <= g.len(),
        0 <= n,
        i0 >= m || j0 >= n,
        forall|i: int| 0 <= i < m ==> n <= (#[trigger] g[i]).len(),
    ensures
        count_grid(g.update(i0, g[i0].update(j0, v)), m, n, t, sel) == count_grid(g, m, n, t, sel),
    decreases m,
{
    let g2 = g.update(i0, g[i0].update(j0, v));
    if m > 0 {
        lemma_count_update_outside(g, m - 1, n, i0, j0, v, t, sel);
        lemma_count_row_same(g[m - 1], g2[m - 1], m - 1, n, t, sel);
    }
}

pub proof fn lemma_count_grid_same<T>(g1: Seq<Seq<T>>, g2: Seq<Seq<T>>, m: int, n: int, t: T, sel: int)
    requires
        0 <= m <= g1.len(),
        m <= g2.len(),
        0 <= n,
        forall|i: int| 0 <= i < m ==> n <= (#[trigger] g1[i]).len() && n <= g2[i].len(),
        forall|i: int, j: int| 0 <= i < m && 0 <= j < n ==> g1[i][j] == g2[i][j],
    ensures
        count_grid(g1, m, n, t, sel) == count_grid(g2, m, n, t, sel),
    decreases m,
{
    if m > 0 {
        lemma_count_grid_same(g1, g2, m - 1, n, t, sel);
        lemma_count_row_same(g1[m - 1], g2[m - 1], m - 1, n, t, sel);
    }
}

/// A grid in which no selected position holds `t` counts zero.
pub proof fn lemma_count_zero<T>(g: Seq<Seq<T>>, m: int, n: int, t: T, sel: int)
    requires
        m <= g.len(),
        forall|i: int| 0 <= i < m ==> n <= (#[trigger] g[i]).len(),
        forall|i: int, j: int| 0 <= i < m && 0 <= j < n ==> g[i][j] != t,
    ensures
        count_grid(g, m, n, t, sel) == 0,
    decreases m,
{
    if m > 0 {
        lemma_count_zero(g, m - 1, n, t, sel);
        lemma_count_row_zero(g[m - 1], m - 1, n, t, sel);
    }
}

proof fn lemma_count_row_zero<T>(row: Seq<T>, i: int, n: int, t: T, sel: int)
    requires
        n <= row.len(),
        forall|j: int| 0 <= j < n ==> row[j] != t,
    ensures
        count_row(row, i, n, t, sel) == 0,
    decreases n,
{
    if n > 0 {
        lemma_count_row_zero(row, i, n - 1, t, sel);
    }
}

} // verus!
