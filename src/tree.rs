use vstd::prelude::*;
use crate::count::{count_grid, lemma_count_update, lemma_count_update_outside};
use crate::maze::{
    adjacent, at, carve, crosses_seam, in_lattice, in_storage, is_rect, is_walk, neighbor_seq,
    reachable, set_at, storage_adjacent, storage_of, Cell,
};

verus! {

/// Logical cell `c` belongs to the tree: its own marker is `Path`.
pub open spec fn visited(g: Seq<Seq<Cell>>, c: (int, int)) -> bool {
    at(g, storage_of(c)) == Cell::Path
}

/// A `Path` marker at storage position `(i, j)` is a cell's own marker, or a
/// wall between two neighbouring cells that both belong to the tree: a wall
/// between two rows, a wall between two columns away from the seam, or one of
/// the two copies of a seam wall, where column `0` meets column `cols - 1`.
/// Corners and the top and bottom border are never `Path`.
pub open spec fn wall_ok(g: Seq<Seq<Cell>>, rows: int, cols: int, i: int, j: int) -> bool {
    at(g, (i, j)) == Cell::Path ==> {
        ||| (i % 2 == 1 && j % 2 == 1)
        ||| (i % 2 == 0 && j % 2 == 1 && 2 <= i <= 2 * rows - 2 && visited(g, (i / 2 - 1, j / 2))
            && visited(g, (i / 2, j / 2)))
        ||| (i % 2 == 1 && j % 2 == 0 && 2 <= j <= 2 * cols - 2 && !crosses_seam(
            cols,
            j / 2 - 1,
            j / 2,
        ) && visited(g, (i / 2, j / 2 - 1)) && visited(g, (i / 2, j / 2)))
        ||| (i % 2 == 1 && (j == 0 || j == 2 * cols) && cols >= 2 && visited(g, (i / 2, 0))
            && visited(g, (i / 2, cols - 1)))
    }
}

/// The two storage copies of every seam wall agree.
pub open spec fn seam_synced(g: Seq<Seq<Cell>>, rows: int, cols: int) -> bool {
    forall|i: int| 0 <= i < 2 * rows + 1 && i % 2 == 1 ==> #[trigger] at(g, (i, 0)) == at(g, (i, 2 * cols))
}

/// The number of carved walls, each seam wall counted once (its copy at
/// storage column `2 * cols` is left out).
pub open spec fn carved_walls(g: Seq<Seq<Cell>>, rows: int, cols: int) -> nat {
    count_grid(g, 2 * rows + 1, 2 * cols, Cell::Path, 2)
}

/// The number of logical cells in the tree.
pub open spec fn tree_cells(g: Seq<Seq<Cell>>, rows: int, cols: int) -> nat {
    count_grid(g, 2 * rows + 1, 2 * cols + 1, Cell::Path, 1)
}

/// `g` holds a tree of carved passages that contains the `seed` cell: every
/// `Path` wall joins two tree cells, every tree cell is reachable from the
/// seed, and there is one carved wall fewer than tree cells.
pub open spec fn maze_tree(g: Seq<Seq<Cell>>, rows: int, cols: int, seed: (int, int)) -> bool {
    &&& rows >= 1
    &&& cols >= 1
    &&& is_rect(g, 2 * rows + 1, 2 * cols + 1)
    &&& in_lattice(rows, cols, seed)
    &&& visited(g, seed)
    &&& forall|i: int, j: int|
        in_storage(2 * rows + 1, 2 * cols + 1, (i, j)) ==> #[trigger] wall_ok(g, rows, cols, i, j)
    &&& seam_synced(g, rows, cols)
    &&& forall|c: (int, int)|
        in_lattice(rows, cols, c) && #[trigger] visited(g, c) ==> reachable(
            g,
            2 * rows + 1,
            2 * cols + 1,
            storage_of(seed),
            storage_of(c),
        )
    &&& carved_walls(g, rows, cols) + 1 == tree_cells(g, rows, cols)
}

/// The storage positions of the wall that `carve` opens between `a` and `b`.
pub open spec fn is_carve_wall(cols: int, a: (int, int), b: (int, int), p: (int, int)) -> bool {
    if a.0 == b.0 {
        if crosses_seam(cols, a.1, b.1) {
            p == (2 * a.0 + 1, 0int) || p == (2 * a.0 + 1, 2 * cols)
        } else {
            p == (2 * a.0 + 1, a.1 + b.1 + 1)
        }
    } else {
        p == (a.0 + b.0 + 1, 2 * a.1 + 1)
    }
}

/// The neighbours of a cell lie in the lattice, one row up or down, or in
/// the same row one column over, or across the seam.
pub proof fn lemma_adjacent_cases(rows: int, cols: int, a: (int, int), b: (int, int))
    requires
        rows >= 1,
        cols >= 1,
        in_lattice(rows, cols, a),
        adjacent(rows, cols, a, b),
    ensures
        in_lattice(rows, cols, b),
        (b.0 == a.0 - 1 && b.1 == a.1) || (b.0 == a.0 + 1 && b.1 == a.1) || (b.0 == a.0
            && crosses_seam(cols, a.1, b.1)) || (b.0 == a.0 && !crosses_seam(cols, a.1, b.1) && (b.1
            == a.1 - 1 || b.1 == a.1 + 1 || b.1 == a.1)),
{
    let n = neighbor_seq(rows, cols, a.0, a.1);
    let k = choose|k: int| 0 <= k < n.len() && n[k] == b;
    if a.1 + 1 == cols {
        assert((a.1 + 1) % cols == 0) by {
            vstd::arithmetic::div_mod::lemma_mod_self_0(cols);
        }
    } else {
        assert((a.1 + 1) % cols == a.1 + 1) by {
            vstd::arithmetic::div_mod::lemma_small_mod((a.1 + 1) as nat, cols as nat);
        }
    }
}

/// What `carve` writes: `Path` at both cells and at the wall between them.
pub proof fn lemma_carve_at(g: Seq<Seq<Cell>>, rows: int, cols: int, a: (int, int), b: (int, int), p: (int, int))
    requires
        rows >= 1,
        cols >= 1,
        is_rect(g, 2 * rows + 1, 2 * cols + 1),
        in_lattice(rows, cols, a),
        adjacent(rows, cols, a, b),
        in_storage(2 * rows + 1, 2 * cols + 1, p),
    ensures
        is_rect(carve(g, cols, a, b), 2 * rows + 1, 2 * cols + 1),
        at(carve(g, cols, a, b), p) == if p == storage_of(a) || p == storage_of(b) || is_carve_wall(
            cols,
            a,
            b,
            p,
        ) {
            Cell::Path
        } else {
            at(g, p)
        },
{
    lemma_adjacent_cases(rows, cols, a, b);
    let g1 = set_at(g, storage_of(a), Cell::Path);
    let g2 = set_at(g1, storage_of(b), Cell::Path);
    assert(is_rect(g1, 2 * rows + 1, 2 * cols + 1));
    assert(is_rect(g2, 2 * rows + 1, 2 * cols + 1));
    if a.0 == b.0 && crosses_seam(cols, a.1, b.1) {
        let g3 = set_at(g2, (2 * a.0 + 1, 0), Cell::Path);
        assert(is_rect(g3, 2 * rows + 1, 2 * cols + 1));
    }
}

/// Reachability survives carving more `Path` markers.
pub proof fn lemma_reach_mono(
    g: Seq<Seq<Cell>>,
    g2: Seq<Seq<Cell>>,
    h: int,
    w: int,
    s: (int, int),
    e: (int, int),
)
    requires
        reachable(g, h, w, s, e),
        forall|p: (int, int)| in_storage(h, w, p) && at(g, p) == Cell::Path ==> #[trigger] at(g2, p) == Cell::Path,
    ensures
        reachable(g2, h, w, s, e),
{
    let wk = choose|wk: Seq<(int, int)>| is_walk(g, h, w, wk) && wk[0] == s && wk.last() == e;
    assert(is_walk(g2, h, w, wk));
}

/// A reachable position extends by one step to a `Path` neighbour.
pub proof fn lemma_reach_step(g: Seq<Seq<Cell>>, h: int, w: int, s: (int, int), x: (int, int), y: (int, int))
    requires
        reachable(g, h, w, s, x),
        in_storage(h, w, y),
        at(g, y) == Cell::Path,
        storage_adjacent(h, w, x, y),
    ensures
        reachable(g, h, w, s, y),
{
    let wk = choose|wk: Seq<(int, int)>| is_walk(g, h, w, wk) && wk[0] == s && wk.last() == x;
    let wk2 = wk.push(y);
    assert forall|i: int| 1 <= i < wk2.len() implies at(g, #[trigger] wk2[i]) == Cell::Path && storage_adjacent(
        h,
        w,
        wk2[i - 1],
        wk2[i],
    ) by {
        if i < wk.len() {
            assert(wk2[i] == wk[i]);
            assert(wk2[i - 1] == wk[i - 1]);
        }
    }
    assert forall|i: int| 0 <= i < wk2.len() implies in_storage(h, w, #[trigger] wk2[i]) by {
        if i < wk.len() {
            assert(wk2[i] == wk[i]);
        }
    }
    assert(wk2[0] == s && wk2.last() == y);
}

/// The preconditions of attaching the new cell `a` to the tree cell `b`.
pub open spec fn can_attach(g: Seq<Seq<Cell>>, rows: int, cols: int, seed: (int, int), a: (int, int), b: (int, int)) -> bool {
    &&& maze_tree(g, rows, cols, seed)
    &&& in_lattice(rows, cols, a)
    &&& adjacent(rows, cols, a, b)
    &&& !visited(g, a)
    &&& visited(g, b)
}

/// Carving only adds `Path` markers, and of the cells only `a` joins.
pub proof fn lemma_attach_cells(g: Seq<Seq<Cell>>, rows: int, cols: int, seed: (int, int), a: (int, int), b: (int, int))
    requires
        can_attach(g, rows, cols, seed, a, b),
    ensures
        is_rect(carve(g, cols, a, b), 2 * rows + 1, 2 * cols + 1),
        in_lattice(rows, cols, b),
        a != b,
        forall|p: (int, int)|
            in_storage(2 * rows + 1, 2 * cols + 1, p) && at(g, p) == Cell::Path ==> #[trigger] at(
                carve(g, cols, a, b),
                p,
            ) == Cell::Path,
        forall|c: (int, int)|
            in_lattice(rows, cols, c) ==> #[trigger] visited(carve(g, cols, a, b), c) == (visited(g, c)
                || c == a),
{
    let g2 = carve(g, cols, a, b);
    lemma_adjacent_cases(rows, cols, a, b);
    assert(storage_of(b) == (2 * b.0 + 1, 2 * b.1 + 1));
    lemma_carve_at(g, rows, cols, a, b, storage_of(a));
    assert forall|p: (int, int)|
        in_storage(2 * rows + 1, 2 * cols + 1, p) && at(g, p) == Cell::Path implies #[trigger] at(g2, p)
            == Cell::Path by {
        lemma_carve_at(g, rows, cols, a, b, p);
    }
    assert forall|c: (int, int)| in_lattice(rows, cols, c) implies #[trigger] visited(g2, c) == (visited(g, c)
        || c == a) by {
        lemma_carve_at(g, rows, cols, a, b, storage_of(c));
    }
}

/// Attaching keeps every `Path` wall between two tree cells, and the seam
/// copies in step.
pub proof fn lemma_attach_walls(g: Seq<Seq<Cell>>, rows: int, cols: int, seed: (int, int), a: (int, int), b: (int, int))
    requires
        can_attach(g, rows, cols, seed, a, b),
    ensures
        forall|i: int, j: int|
            in_storage(2 * rows + 1, 2 * cols + 1, (i, j)) ==> #[trigger] wall_ok(
                carve(g, cols, a, b),
                rows,
                cols,
                i,
                j,
            ),
        seam_synced(carve(g, cols, a, b), rows, cols),
{
    let g2 = carve(g, cols, a, b);
    lemma_adjacent_cases(rows, cols, a, b);
    lemma_attach_cells(g, rows, cols, seed, a, b);
    assert forall|i: int, j: int| in_storage(2 * rows + 1, 2 * cols + 1, (i, j)) implies #[trigger] wall_ok(
        g2,
        rows,
        cols,
        i,
        j,
    ) by {
        lemma_carve_at(g, rows, cols, a, b, (i, j));
        assert(wall_ok(g, rows, cols, i, j));
        if at(g2, (i, j)) == Cell::Path {
            if (i, j) == storage_of(a) || (i, j) == storage_of(b) {
            } else if is_carve_wall(cols, a, b, (i, j)) {
                assert(visited(g2, a));
                assert(visited(g2, b));
            } else {
                assert(at(g, (i, j)) == Cell::Path);
                if i % 2 == 0 && j % 2 == 1 {
                    assert(visited(g2, (i / 2 - 1, j / 2)));
                    assert(visited(g2, (i / 2, j / 2)));
                } else if i % 2 == 1 && j % 2 == 0 && 2 <= j <= 2 * cols - 2 {
                    assert(visited(g2, (i / 2, j / 2 - 1)));
                    assert(visited(g2, (i / 2, j / 2)));
                } else if i % 2 == 1 && (j == 0 || j == 2 * cols) {
                    assert(visited(g2, (i / 2, 0)));
                    assert(visited(g2, (i / 2, cols - 1)));
                }
            }
        }
    }
    assert forall|i: int| 0 <= i < 2 * rows + 1 && i % 2 == 1 implies #[trigger] at(g2, (i, 0)) == at(
        g2,
        (i, 2 * cols),
    ) by {
        lemma_carve_at(g, rows, cols, a, b, (i, 0));
        lemma_carve_at(g, rows, cols, a, b, (i, 2 * cols));
        assert(at(g, (i, 0)) == at(g, (i, 2 * cols)));
    }
}

/// Attaching adds one tree cell and one carved wall.
pub proof fn lemma_attach_count(g: Seq<Seq<Cell>>, rows: int, cols: int, seed: (int, int), a: (int, int), b: (int, int))
    requires
        can_attach(g, rows, cols, seed, a, b),
    ensures
        carved_walls(carve(g, cols, a, b), rows, cols) == carved_walls(g, rows, cols) + 1,
        tree_cells(carve(g, cols, a, b), rows, cols) == tree_cells(g, rows, cols) + 1,
{
    let h = 2 * rows + 1;
    let w = 2 * cols + 1;
    lemma_adjacent_cases(rows, cols, a, b);
    lemma_attach_cells(g, rows, cols, seed, a, b);
    let sa = storage_of(a);
    let sb = storage_of(b);
    let g1 = set_at(g, sa, Cell::Path);
    let g2 = set_at(g1, sb, Cell::Path);
    assert(is_rect(g1, h, w));
    assert(is_rect(g2, h, w));
    lemma_count_update(g, h, w, sa.0, sa.1, Cell::Path, Cell::Path, 1);
    lemma_count_update(g, h, 2 * cols, sa.0, sa.1, Cell::Path, Cell::Path, 2);
    lemma_count_update(g1, h, w, sb.0, sb.1, Cell::Path, Cell::Path, 1);
    lemma_count_update(g1, h, 2 * cols, sb.0, sb.1, Cell::Path, Cell::Path, 2);
    if a.0 == b.0 {
        if crosses_seam(cols, a.1, b.1) {
            let p0 = (2 * a.0 + 1, 0int);
            let p1 = (2 * a.0 + 1, 2 * cols);
            assert(wall_ok(g, rows, cols, p0.0, p0.1));
            assert(at(g2, p0) == at(g, p0));
            let g3 = set_at(g2, p0, Cell::Path);
            assert(is_rect(g3, h, w));
            lemma_count_update(g2, h, w, p0.0, p0.1, Cell::Path, Cell::Path, 1);
            lemma_count_update(g2, h, 2 * cols, p0.0, p0.1, Cell::Path, Cell::Path, 2);
            lemma_count_update(g3, h, w, p1.0, p1.1, Cell::Path, Cell::Path, 1);
            lemma_count_update_outside(g3, h, 2 * cols, p1.0, p1.1, Cell::Path, Cell::Path, 2);
        } else {
            let p0 = (2 * a.0 + 1, a.1 + b.1 + 1);
            assert(wall_ok(g, rows, cols, p0.0, p0.1));
            assert(at(g2, p0) == at(g, p0));
            lemma_count_update(g2, h, w, p0.0, p0.1, Cell::Path, Cell::Path, 1);
            lemma_count_update(g2, h, 2 * cols, p0.0, p0.1, Cell::Path, Cell::Path, 2);
        }
    } else {
        let p0 = (a.0 + b.0 + 1, 2 * a.1 + 1);
        assert(wall_ok(g, rows, cols, p0.0, p0.1));
        assert(at(g2, p0) == at(g, p0));
        lemma_count_update(g2, h, w, p0.0, p0.1, Cell::Path, Cell::Path, 1);
        lemma_count_update(g2, h, 2 * cols, p0.0, p0.1, Cell::Path, Cell::Path, 2);
    }
}

/// After attaching, the new cell `a` is reachable from the seed.
pub proof fn lemma_attach_reach_new(g: Seq<Seq<Cell>>, rows: int, cols: int, seed: (int, int), a: (int, int), b: (int, int))
    requires
        can_attach(g, rows, cols, seed, a, b),
    ensures
        reachable(carve(g, cols, a, b), 2 * rows + 1, 2 * cols + 1, storage_of(seed), storage_of(a)),
{
    let h = 2 * rows + 1;
    let w = 2 * cols + 1;
    let g2 = carve(g, cols, a, b);
    let s = storage_of(seed);
    lemma_attach_cells(g, rows, cols, seed, a, b);
    assert(in_lattice(rows, cols, b) && visited(g, b));
    lemma_reach_mono(g, g2, h, w, s, storage_of(b));
    if a.0 != b.0 {
        lemma_attach_reach_col(g, rows, cols, seed, a, b);
    } else if !crosses_seam(cols, a.1, b.1) {
        lemma_attach_reach_row(g, rows, cols, seed, a, b);
    } else {
        lemma_attach_reach_seam(g, rows, cols, seed, a, b);
    }
}

proof fn lemma_attach_reach_col(g: Seq<Seq<Cell>>, rows: int, cols: int, seed: (int, int), a: (int, int), b: (int, int))
    requires
        can_attach(g, rows, cols, seed, a, b),
        a.0 != b.0,
        reachable(carve(g, cols, a, b), 2 * rows + 1, 2 * cols + 1, storage_of(seed), storage_of(b)),
    ensures
        reachable(carve(g, cols, a, b), 2 * rows + 1, 2 * cols + 1, storage_of(seed), storage_of(a)),
{
    let h = 2 * rows + 1;
    let w = 2 * cols + 1;
    let g2 = carve(g, cols, a, b);
    let s = storage_of(seed);
    lemma_adjacent_cases(rows, cols, a, b);
    let sb = storage_of(b);
    let sa = storage_of(a);
    let m = (a.0 + b.0 + 1, 2 * a.1 + 1);
    lemma_carve_at(g, rows, cols, a, b, m);
    lemma_carve_at(g, rows, cols, a, b, sa);
    lemma_reach_step(g2, h, w, s, sb, m);
    lemma_reach_step(g2, h, w, s, m, sa);
}

proof fn lemma_attach_reach_row(g: Seq<Seq<Cell>>, rows: int, cols: int, seed: (int, int), a: (int, int), b: (int, int))
    requires
        can_attach(g, rows, cols, seed, a, b),
        a.0 == b.0,
        !crosses_seam(cols, a.1, b.1),
        reachable(carve(g, cols, a, b), 2 * rows + 1, 2 * cols + 1, storage_of(seed), storage_of(b)),
    ensures
        reachable(carve(g, cols, a, b), 2 * rows + 1, 2 * cols + 1, storage_of(seed), storage_of(a)),
{
    let h = 2 * rows + 1;
    let w = 2 * cols + 1;
    let g2 = carve(g, cols, a, b);
    let s = storage_of(seed);
    lemma_adjacent_cases(rows, cols, a, b);
    lemma_attach_cells(g, rows, cols, seed, a, b);
    let sb = storage_of(b);
    let sa = storage_of(a);
    let m = (2 * a.0 + 1, a.1 + b.1 + 1);
    lemma_carve_at(g, rows, cols, a, b, m);
    lemma_carve_at(g, rows, cols, a, b, sa);
    if b.1 < a.1 {
        assert((sb.1 + 1) % w == sb.1 + 1) by {
            vstd::arithmetic::div_mod::lemma_small_mod((sb.1 + 1) as nat, w as nat);
        }
        assert((m.1 + 1) % w == m.1 + 1) by {
            vstd::arithmetic::div_mod::lemma_small_mod((m.1 + 1) as nat, w as nat);
        }
    }
    lemma_reach_step(g2, h, w, s, sb, m);
    lemma_reach_step(g2, h, w, s, m, sa);
}

proof fn lemma_attach_reach_seam(g: Seq<Seq<Cell>>, rows: int, cols: int, seed: (int, int), a: (int, int), b: (int, int))
    requires
        can_attach(g, rows, cols, seed, a, b),
        a.0 == b.0,
        crosses_seam(cols, a.1, b.1),
        reachable(carve(g, cols, a, b), 2 * rows + 1, 2 * cols + 1, storage_of(seed), storage_of(b)),
    ensures
        reachable(carve(g, cols, a, b), 2 * rows + 1, 2 * cols + 1, storage_of(seed), storage_of(a)),
{
    let h = 2 * rows + 1;
    let w = 2 * cols + 1;
    let g2 = carve(g, cols, a, b);
    let s = storage_of(seed);
    lemma_adjacent_cases(rows, cols, a, b);
    lemma_attach_cells(g, rows, cols, seed, a, b);
    let sb = storage_of(b);
    let sa = storage_of(a);
    let p0 = (2 * a.0 + 1, 0int);
    let p1 = (2 * a.0 + 1, 2 * cols);
    lemma_carve_at(g, rows, cols, a, b, p0);
    lemma_carve_at(g, rows, cols, a, b, p1);
    lemma_carve_at(g, rows, cols, a, b, sa);
    if b.1 == cols - 1 {
        assert((sb.1 + 1) % w == 2 * cols) by {
            vstd::arithmetic::div_mod::lemma_small_mod((sb.1 + 1) as nat, w as nat);
        }
        assert((p1.1 + 1) % w == 0) by {
            vstd::arithmetic::div_mod::lemma_mod_self_0(w);
        }
        assert((p0.1 + 1) % w == 1) by {
            vstd::arithmetic::div_mod::lemma_small_mod(1, w as nat);
        }
        lemma_reach_step(g2, h, w, s, sb, p1);
        lemma_reach_step(g2, h, w, s, p1, p0);
        lemma_reach_step(g2, h, w, s, p0, sa);
    } else {
        lemma_reach_step(g2, h, w, s, sb, p0);
        lemma_reach_step(g2, h, w, s, p0, p1);
        lemma_reach_step(g2, h, w, s, p1, sa);
    }
}

/// After attaching, every tree cell is reachable from the seed.
pub proof fn lemma_attach_reach(g: Seq<Seq<Cell>>, rows: int, cols: int, seed: (int, int), a: (int, int), b: (int, int))
    requires
        can_attach(g, rows, cols, seed, a, b),
    ensures
        forall|c: (int, int)|
            in_lattice(rows, cols, c) && #[trigger] visited(carve(g, cols, a, b), c) ==> reachable(
                carve(g, cols, a, b),
                2 * rows + 1,
                2 * cols + 1,
                storage_of(seed),
                storage_of(c),
            ),
{
    let h = 2 * rows + 1;
    let w = 2 * cols + 1;
    let g2 = carve(g, cols, a, b);
    let s = storage_of(seed);
    lemma_attach_cells(g, rows, cols, seed, a, b);
    lemma_attach_reach_new(g, rows, cols, seed, a, b);
    assert forall|c: (int, int)| in_lattice(rows, cols, c) && #[trigger] visited(g2, c) implies reachable(
        g2,
        h,
        w,
        s,
        storage_of(c),
    ) by {
        if c != a {
            assert(visited(g, c));
            lemma_reach_mono(g, g2, h, w, s, storage_of(c));
        }
    }
}

/// Carving a passage from a cell outside the tree to a neighbouring tree
/// cell attaches the new cell: the result is again a tree with the same seed,
/// holding one cell and one wall more.
pub proof fn lemma_attach(g: Seq<Seq<Cell>>, rows: int, cols: int, seed: (int, int), a: (int, int), b: (int, int))
    requires
        can_attach(g, rows, cols, seed, a, b),
    ensures
        maze_tree(carve(g, cols, a, b), rows, cols, seed),
        tree_cells(carve(g, cols, a, b), rows, cols) == tree_cells(g, rows, cols) + 1,
        forall|p: (int, int)|
            in_storage(2 * rows + 1, 2 * cols + 1, p) && at(g, p) == Cell::Path ==> #[trigger] at(
                carve(g, cols, a, b),
                p,
            ) == Cell::Path,
        forall|c: (int, int)|
            in_lattice(rows, cols, c) ==> #[trigger] visited(carve(g, cols, a, b), c) == (visited(g, c)
                || c == a),
{
    lemma_attach_cells(g, rows, cols, seed, a, b);
    lemma_attach_walls(g, rows, cols, seed, a, b);
    lemma_attach_count(g, rows, cols, seed, a, b);
    lemma_attach_reach(g, rows, cols, seed, a, b);
    assert(visited(carve(g, cols, a, b), seed));
}

} // verus!
