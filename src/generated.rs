use vstd::prelude::*;
use crate::count::{count_grid, count_row};
use crate::maze::{
    at, in_lattice, in_storage, is_rect, is_walk, reachable, storage_adjacent, storage_of, Cell,
};
use crate::tree::{carved_walls, lemma_reach_step, maze_tree, seam_synced, tree_cells, visited, wall_ok};
use crate::wilson::{is_generated, wilson_step};

verus! {

/// Storage adjacency goes both ways.
pub proof fn lemma_storage_adjacent_sym(h: int, w: int, x: (int, int), y: (int, int))
    requires
        in_storage(h, w, x),
        in_storage(h, w, y),
        storage_adjacent(h, w, x, y),
    ensures
        storage_adjacent(h, w, y, x),
{
    if y == (x.0, if x.1 == 0 { w - 1 } else { x.1 - 1 }) {
        if x.1 == 0 {
            assert((y.1 + 1) % w == 0) by {
                vstd::arithmetic::div_mod::lemma_mod_self_0(w);
            }
        } else {
            assert((y.1 + 1) % w == x.1) by {
                vstd::arithmetic::div_mod::lemma_small_mod(x.1 as nat, w as nat);
            }
        }
    } else if y == (x.0, (x.1 + 1) % w) && !(x.0 > 0 && y == (x.0 - 1, x.1)) && !(x.0 + 1 < h && y == (
    x.0 + 1, x.1)) {
        if x.1 + 1 == w {
            assert((x.1 + 1) % w == 0) by {
                vstd::arithmetic::div_mod::lemma_mod_self_0(w);
            }
        } else {
            assert((x.1 + 1) % w == x.1 + 1) by {
                vstd::arithmetic::div_mod::lemma_small_mod((x.1 + 1) as nat, w as nat);
            }
        }
    }
}

/// A walk between two `Path` positions can be walked backwards.
pub proof fn lemma_reach_sym(g: Seq<Seq<Cell>>, h: int, w: int, s: (int, int), e: (int, int))
    requires
        reachable(g, h, w, s, e),
        at(g, s) == Cell::Path,
    ensures
        reachable(g, h, w, e, s),
{
    let p = choose|p: Seq<(int, int)>| is_walk(g, h, w, p) && p[0] == s && p.last() == e;
    let n = p.len();
    let q = Seq::new(n, |i: int| p[n - 1 - i]);
    assert forall|i: int| 0 <= i < q.len() implies in_storage(h, w, #[trigger] q[i]) by {
        assert(in_storage(h, w, p[n - 1 - i]));
    }
    assert forall|i: int| 1 <= i < q.len() implies at(g, #[trigger] q[i]) == Cell::Path && storage_adjacent(
        h,
        w,
        q[i - 1],
        q[i],
    ) by {
        let k = n - i;
        assert(q[i - 1] == p[k]);
        assert(q[i] == p[k - 1]);
        assert(at(g, p[k]) == Cell::Path && storage_adjacent(h, w, p[k - 1], p[k]));
        assert(in_storage(h, w, p[k - 1]) && in_storage(h, w, p[k]));
        lemma_storage_adjacent_sym(h, w, p[k - 1], p[k]);
        if k - 1 > 0 {
            assert(at(g, p[k - 1]) == Cell::Path);
        }
    }
    assert(is_walk(g, h, w, q));
    assert(q[0] == e && q.last() == s);
}

/// Walks join end to start.
pub proof fn lemma_reach_trans(g: Seq<Seq<Cell>>, h: int, w: int, s: (int, int), m: (int, int), e: (int, int))
    requires
        reachable(g, h, w, s, m),
        reachable(g, h, w, m, e),
    ensures
        reachable(g, h, w, s, e),
{
    let p1 = choose|p: Seq<(int, int)>| is_walk(g, h, w, p) && p[0] == s && p.last() == m;
    let p2 = choose|p: Seq<(int, int)>| is_walk(g, h, w, p) && p[0] == m && p.last() == e;
    let q = p1 + p2.skip(1);
    let n1 = p1.len();
    assert forall|i: int| 0 <= i < q.len() implies in_storage(h, w, #[trigger] q[i]) by {
        if i >= n1 {
            assert(q[i] == p2[i - n1 + 1]);
        }
    }
    assert forall|i: int| 1 <= i < q.len() implies at(g, #[trigger] q[i]) == Cell::Path && storage_adjacent(
        h,
        w,
        q[i - 1],
        q[i],
    ) by {
        if i < n1 {
            assert(q[i] == p1[i] && q[i - 1] == p1[i - 1]);
        } else {
            assert(q[i] == p2[i - n1 + 1]);
            if i == n1 {
                assert(q[i - 1] == p1[n1 - 1]);
                assert(p2[0] == m);
            } else {
                assert(q[i - 1] == p2[i - n1]);
            }
        }
    }
    assert(is_walk(g, h, w, q));
    if p2.len() == 1 {
        assert(q =~= p1);
    }
    assert(q.last() == e);
}

/// Every logical cell of a generated maze is `Path`.
pub proof fn lemma_generated_cells_open(g: Seq<Seq<Cell>>, rows: int, cols: int)
    requires
        is_generated(g, rows, cols),
    ensures
        forall|c: (int, int)| in_lattice(rows, cols, c) ==> #[trigger] at(g, storage_of(c)) == Cell::Path,
{
    assert forall|c: (int, int)| in_lattice(rows, cols, c) implies #[trigger] at(g, storage_of(c)) == Cell::Path by {
        assert(visited(g, c));
    }
}

/// In a generated maze every logical cell can be reached from every other:
/// the solver's search succeeds for every pair of cells.
pub proof fn lemma_generated_connected(g: Seq<Seq<Cell>>, rows: int, cols: int)
    requires
        is_generated(g, rows, cols),
    ensures
        forall|a: (int, int), b: (int, int)|
            in_lattice(rows, cols, a) && in_lattice(rows, cols, b) ==> #[trigger] reachable(
                g,
                2 * rows + 1,
                2 * cols + 1,
                storage_of(a),
                #[trigger] storage_of(b),
            ),
{
    let seed = choose|seed: (int, int)| maze_tree(g, rows, cols, seed);
    let h = 2 * rows + 1;
    let w = 2 * cols + 1;
    assert forall|a: (int, int), b: (int, int)| in_lattice(rows, cols, a) && in_lattice(rows, cols, b) implies #[trigger] reachable(
        g,
        h,
        w,
        storage_of(a),
        #[trigger] storage_of(b),
    ) by {
        assert(visited(g, a) && visited(g, b));
        lemma_reach_sym(g, h, w, storage_of(seed), storage_of(a));
        lemma_reach_trans(g, h, w, storage_of(a), storage_of(seed), storage_of(b));
    }
}

proof fn lemma_open_row_count(row: Seq<Cell>, i: int, n: int)
    requires
        i % 2 == 1,
        0 <= n <= row.len(),
        forall|j: int| 0 <= j < n && j % 2 == 1 ==> row[j] == Cell::Path,
    ensures
        count_row(row, i, n, Cell::Path, 1) == n / 2,
    decreases n,
{
    if n > 0 {
        lemma_open_row_count(row, i, n - 1);
    }
}

proof fn lemma_even_row_count(row: Seq<Cell>, i: int, n: int)
    requires
        i % 2 == 0,
    ensures
        count_row(row, i, n, Cell::Path, 1) == 0,
    decreases n,
{
    if n > 0 {
        lemma_even_row_count(row, i, n - 1);
    }
}

proof fn lemma_open_grid_count(g: Seq<Seq<Cell>>, rows: int, cols: int, m: int)
    requires
        is_generated(g, rows, cols),
        rows >= 1,
        cols >= 1,
        is_rect(g, 2 * rows + 1, 2 * cols + 1),
        0 <= m <= 2 * rows + 1,
    ensures
        count_grid(g, m, 2 * cols + 1, Cell::Path, 1) == (m / 2) * cols,
    decreases m,
{
    if m > 0 {
        lemma_open_grid_count(g, rows, cols, m - 1);
        let i = m - 1;
        if i % 2 == 1 {
            assert forall|j: int| 0 <= j < 2 * cols + 1 && j % 2 == 1 implies g[i][j] == Cell::Path by {
                assert(visited(g, (i / 2, j / 2)));
            }
            lemma_open_row_count(g[i], i, 2 * cols + 1);
            assert((2 * cols + 1) / 2 == cols);
            assert(count_grid(g, m, 2 * cols + 1, Cell::Path, 1) == count_grid(g, m - 1, 2 * cols + 1, Cell::Path, 1) + count_row(g[i], i, 2 * cols + 1, Cell::Path, 1));
            assert(m / 2 == (m - 1) / 2 + 1);
            assert((m / 2) * cols == ((m - 1) / 2) * cols + cols) by (nonlinear_arith)
                requires
                    m / 2 == (m - 1) / 2 + 1,
            ;
            assert(count_grid(g, m, 2 * cols + 1, Cell::Path, 1) == (m / 2) * cols);
        } else {
            lemma_even_row_count(g[i], i, 2 * cols + 1);
            assert(count_grid(g, m, 2 * cols + 1, Cell::Path, 1) == count_grid(g, m - 1, 2 * cols + 1, Cell::Path, 1) + count_row(g[i], i, 2 * cols + 1, Cell::Path, 1));
            assert(m / 2 == (m - 1) / 2);
            assert(count_grid(g, m, 2 * cols + 1, Cell::Path, 1) == (m / 2) * cols);
        }
    } else {
        assert(count_grid(g, m, 2 * cols + 1, Cell::Path, 1) == 0);
        assert((m / 2) * cols == 0) by (nonlinear_arith)
            requires
                m == 0,
        ;
    }
}

/// A generated maze has exactly `rows * cols - 1` carved walls, each seam
/// wall counted once: as many as a spanning tree of the cells has edges.
pub proof fn lemma_generated_edge_count(g: Seq<Seq<Cell>>, rows: int, cols: int)
    requires
        is_generated(g, rows, cols),
    ensures
        carved_walls(g, rows, cols) == rows * cols - 1,
        tree_cells(g, rows, cols) == rows * cols,
{
    let seed = choose|seed: (int, int)| maze_tree(g, rows, cols, seed);
    lemma_open_grid_count(g, rows, cols, 2 * rows + 1);
    assert((2 * rows + 1) / 2 == rows);
}

/// The seam of a generated maze: in every row the two storage copies of the
/// seam wall agree, and where it is carved, the cells in column `0` and in
/// column `cols - 1` reach each other through it. Every other carved wall
/// joins two neighbouring cells, so no two columns that are not neighbours are
/// joined directly.
pub proof fn lemma_generated_seam(g: Seq<Seq<Cell>>, rows: int, cols: int)
    requires
        is_generated(g, rows, cols),
    ensures
        seam_synced(g, rows, cols),
        forall|i: int, j: int|
            in_storage(2 * rows + 1, 2 * cols + 1, (i, j)) ==> #[trigger] wall_ok(g, rows, cols, i, j),
        forall|r: int|
            0 <= r < rows && #[trigger] at(g, (2 * r + 1, 0)) == Cell::Path ==> cols >= 2 && reachable(
                g,
                2 * rows + 1,
                2 * cols + 1,
                storage_of((r, 0)),
                storage_of((r, cols - 1)),
            ) && reachable(g, 2 * rows + 1, 2 * cols + 1, storage_of((r, cols - 1)), storage_of((r, 0))),
{
    let seed = choose|seed: (int, int)| maze_tree(g, rows, cols, seed);
    let h = 2 * rows + 1;
    let w = 2 * cols + 1;
    assert forall|r: int| 0 <= r < rows && #[trigger] at(g, (2 * r + 1, 0)) == Cell::Path implies cols >= 2
        && reachable(g, h, w, storage_of((r, 0)), storage_of((r, cols - 1))) && reachable(
        g,
        h,
        w,
        storage_of((r, cols - 1)),
        storage_of((r, 0)),
    ) by {
        let i = 2 * r + 1;
        assert(wall_ok(g, rows, cols, i, 0));
        assert(at(g, (i, 0)) == at(g, (i, 2 * cols)));
        let a = storage_of((r, 0));
        let b = storage_of((r, cols - 1));
        let p0 = (i, 0int);
        let p1 = (i, 2 * cols);
        assert(visited(g, (r, 0)) && visited(g, (r, cols - 1)));
        let wa = seq![a];
        assert(is_walk(g, h, w, wa) && wa[0] == a && wa.last() == a);
        lemma_reach_step(g, h, w, a, a, p0);
        lemma_reach_step(g, h, w, a, p0, p1);
        lemma_reach_step(g, h, w, a, p1, b);
        let wb = seq![b];
        assert(is_walk(g, h, w, wb) && wb[0] == b && wb.last() == b);
        assert((b.1 + 1) % w == 2 * cols) by {
            vstd::arithmetic::div_mod::lemma_small_mod((b.1 + 1) as nat, w as nat);
        }
        assert((p1.1 + 1) % w == 0) by {
            vstd::arithmetic::div_mod::lemma_mod_self_0(w);
        }
        assert((p0.1 + 1) % w == 1) by {
            vstd::arithmetic::div_mod::lemma_small_mod(1, w as nat);
        }
        lemma_reach_step(g, h, w, b, b, p1);
        lemma_reach_step(g, h, w, b, p1, p0);
        lemma_reach_step(g, h, w, b, p0, a);
    }
}

/// The state after feeding `choices` to the generator one step at a time,
/// stopping early once generation is over.
pub open spec fn replay(
    g: Seq<Seq<Cell>>,
    rows: int,
    cols: int,
    walk: Seq<(int, int)>,
    cursor: (int, int),
    choices: Seq<int>,
) -> (Seq<Seq<Cell>>, Seq<(int, int)>, (int, int))
    decreases choices.len(),
{
    if choices.len() == 0 || cursor.0 >= rows {
        (g, walk, cursor)
    } else {
        let s = wilson_step(g, rows, cols, walk, cursor, choices[0]);
        replay(s.0, rows, cols, s.1, s.2, choices.skip(1))
    }
}

/// Generation is determined by its random choices: two runs that start from
/// the same state and are fed the same choices end in the same state, and
/// feeding the choices in two parts gives what feeding them at once gives.
pub proof fn lemma_replay_deterministic(
    g: Seq<Seq<Cell>>,
    rows: int,
    cols: int,
    walk: Seq<(int, int)>,
    cursor: (int, int),
    c1: Seq<int>,
    c2: Seq<int>,
)
    ensures
        ({
            let s = replay(g, rows, cols, walk, cursor, c1);
            replay(s.0, rows, cols, s.1, s.2, c2) == replay(g, rows, cols, walk, cursor, c1 + c2)
        }),
    decreases c1.len(),
{
    if c1.len() == 0 {
        assert(c1 + c2 =~= c2);
    } else if cursor.0 >= rows {
        lemma_replay_done(g, rows, cols, walk, cursor, c2);
    } else {
        let s = wilson_step(g, rows, cols, walk, cursor, c1[0]);
        assert((c1 + c2).skip(1) =~= c1.skip(1) + c2);
        lemma_replay_deterministic(s.0, rows, cols, s.1, s.2, c1.skip(1), c2);
    }
}

/// Feeding one choice to a generation that is not over is one step.
pub proof fn lemma_replay_one(
    g: Seq<Seq<Cell>>,
    rows: int,
    cols: int,
    walk: Seq<(int, int)>,
    cursor: (int, int),
    k: int,
)
    requires
        cursor.0 < rows,
    ensures
        replay(g, rows, cols, walk, cursor, seq![k]) == wilson_step(g, rows, cols, walk, cursor, k),
{
    let s = wilson_step(g, rows, cols, walk, cursor, k);
    assert(seq![k].skip(1) =~= Seq::<int>::empty());
    assert(replay(s.0, rows, cols, s.1, s.2, seq![k].skip(1)) == s);
}

proof fn lemma_replay_done(
    g: Seq<Seq<Cell>>,
    rows: int,
    cols: int,
    walk: Seq<(int, int)>,
    cursor: (int, int),
    c: Seq<int>,
)
    requires
        cursor.0 >= rows,
    ensures
        replay(g, rows, cols, walk, cursor, c) == (g, walk, cursor),
{
}

} // verus!
