use vstd::prelude::*;
use rand::rngs::StdRng;
use rand::Rng;
use crate::maze::{
    adjacent, at, blank, in_storage, is_walk, reachable, carve, in_lattice, neighbor_seq, pos, set_at, storage_of, Cell,
    CylinderMaze,
};
use crate::count::{lemma_count_update, lemma_count_zero};
use crate::generated::{lemma_replay_deterministic, lemma_replay_one, replay};
use crate::tree::{carved_walls, lemma_attach, maze_tree, tree_cells, visited, wall_ok};

verus! {

/// The walk after stepping to `next`: where `next` already lies on the walk,
/// the loop just closed is erased by cutting the walk back to its first
/// occurrence of `next`; otherwise `next` is appended.
pub open spec fn walk_extend(walk: Seq<(int, int)>, next: (int, int)) -> Seq<(int, int)> {
    if walk.contains(next) {
        walk.take(walk.index_of(next) + 1)
    } else {
        walk.push(next)
    }
}

/// `g` with the last `k` steps of `walk` carved, from the walk's end back.
pub open spec fn carve_back(g: Seq<Seq<Cell>>, cols: int, walk: Seq<(int, int)>, k: int) -> Seq<
    Seq<Cell>,
>
    decreases k,
{
    if k <= 0 {
        g
    } else {
        carve(
            carve_back(g, cols, walk, k - 1),
            cols,
            walk[walk.len() - 1 - k],
            walk[walk.len() - k],
        )
    }
}

/// The first cell, in row-major order from `(r, c)` on, that is not yet in
/// the tree; `(rows, 0)` when there is none.
pub open spec fn scan(g: Seq<Seq<Cell>>, rows: int, cols: int, r: int, c: int) -> (int, int)
    decreases rows - r, cols - c,
{
    if r < 0 || r >= rows {
        (rows, 0)
    } else if c < 0 || c >= cols {
        scan(g, rows, cols, r + 1, 0)
    } else if !visited(g, (r, c)) {
        (r, c)
    } else {
        scan(g, rows, cols, r, c + 1)
    }
}

/// The walk that starts at `cursor`: none once the scan is past the last row.
pub open spec fn start_walk(rows: int, cursor: (int, int)) -> Seq<(int, int)> {
    if cursor.0 < rows {
        seq![cursor]
    } else {
        seq![]
    }
}

/// The storage grid at the start of generation: all walls but the seed cell.
pub open spec fn seeded(rows: int, cols: int, seed_col: int) -> Seq<Seq<Cell>> {
    set_at(blank(2 * rows + 1, 2 * cols + 1), storage_of((0, seed_col)), Cell::Path)
}

/// One step of Wilson's algorithm on grid `g` with the current `walk` and
/// scan position `cursor`: the walk moves to the neighbour of its last cell
/// with index `choice`, erasing any loop. Once it reaches a tree cell, the
/// walk is carved into the tree, and the scan moves on to the next cell not in
/// the tree, where the next walk starts.
pub open spec fn wilson_step(
    g: Seq<Seq<Cell>>,
    rows: int,
    cols: int,
    walk: Seq<(int, int)>,
    cursor: (int, int),
    choice: int,
) -> (Seq<Seq<Cell>>, Seq<(int, int)>, (int, int)) {
    let last = walk.last();
    let next = neighbor_seq(rows, cols, last.0, last.1)[choice];
    let w2 = walk_extend(walk, next);
    if visited(g, next) {
        let g2 = carve_back(g, cols, w2, w2.len() - 1);
        let c2 = scan(g2, rows, cols, cursor.0, cursor.1);
        (g2, start_walk(rows, c2), c2)
    } else {
        (g, w2, cursor)
    }
}

/// Cell `c` comes before `k` in row-major order.
pub open spec fn before(c: (int, int), k: (int, int)) -> bool {
    c.0 < k.0 || (c.0 == k.0 && c.1 < k.1)
}

/// A generated maze: a tree of carved passages that holds every cell.
pub open spec fn is_generated(g: Seq<Seq<Cell>>, rows: int, cols: int) -> bool {
    &&& exists|seed: (int, int)| maze_tree(g, rows, cols, seed)
    &&& forall|c: (int, int)| in_lattice(rows, cols, c) ==> #[trigger] visited(g, c)
}

/// rand's seedable standard generator, carried through generation as an
/// opaque value; it is only ever handed to `random_below`.
#[verifier::external_type_specification]
#[verifier::external_body]
pub struct ExStdRng(rand::rngs::StdRng);

/// Relies on rand's `Rng::gen_range` (rand 0.8): a number drawn from `0..n`,
/// so below `n`; it panics on an empty range, which `n > 0` rules out.
#[verifier::external_body]
fn random_below(rng: &mut StdRng, n: usize) -> (r: usize)
    requires
        n > 0,
    ensures
        r < n,
{
    rng.gen_range(0..n)
}

/// A walk that has just reached the tree: it has two cells or more, visits
/// none twice, moves between neighbours, and only its last cell is in the tree.
pub open spec fn walk_ready(g: Seq<Seq<Cell>>, rows: int, cols: int, seed: (int, int), wk: Seq<(int, int)>) -> bool {
    &&& maze_tree(g, rows, cols, seed)
    &&& wk.len() >= 2
    &&& wk.no_duplicates()
    &&& forall|i: int| 0 <= i < wk.len() ==> in_lattice(rows, cols, #[trigger] wk[i])
    &&& forall|i: int| 0 <= i < wk.len() - 1 ==> !visited(g, #[trigger] wk[i])
    &&& visited(g, wk.last())
    &&& forall|i: int| 1 <= i < wk.len() ==> adjacent(rows, cols, wk[i - 1], #[trigger] wk[i])
}

/// Carving `wk` into `g0` has got back to position `i`: the cells from `i` on
/// are in the tree, those before it are not.
#[verifier::opaque]
pub open spec fn carve_progress(
    g0: Seq<Seq<Cell>>,
    g: Seq<Seq<Cell>>,
    rows: int,
    cols: int,
    seed: (int, int),
    wk: Seq<(int, int)>,
    i: int,
) -> bool {
    &&& g == carve_back(g0, cols, wk, wk.len() - 1 - i)
    &&& maze_tree(g, rows, cols, seed)
    &&& forall|c: (int, int)| in_lattice(rows, cols, c) && #[trigger] visited(g0, c) ==> visited(g, c)
    &&& forall|j: int| 0 <= j < i ==> !visited(g, #[trigger] wk[j])
    &&& forall|j: int| i <= j < wk.len() ==> visited(g, #[trigger] wk[j])
}

proof fn lemma_carve_progress_start(g0: Seq<Seq<Cell>>, rows: int, cols: int, seed: (int, int), wk: Seq<(int, int)>)
    requires
        walk_ready(g0, rows, cols, seed, wk),
    ensures
        carve_progress(g0, g0, rows, cols, seed, wk, wk.len() - 1),
{
    reveal(carve_progress);
    assert forall|j: int| wk.len() - 1 <= j < wk.len() implies visited(g0, #[trigger] wk[j]) by {
        assert(j == wk.len() - 1);
    }
}

proof fn lemma_carve_progress_step(
    g0: Seq<Seq<Cell>>,
    g: Seq<Seq<Cell>>,
    rows: int,
    cols: int,
    seed: (int, int),
    wk: Seq<(int, int)>,
    i: int,
)
    requires
        walk_ready(g0, rows, cols, seed, wk),
        carve_progress(g0, g, rows, cols, seed, wk, i),
        0 < i < wk.len(),
    ensures
        carve_progress(g0, carve(g, cols, wk[i - 1], wk[i]), rows, cols, seed, wk, i - 1),
        adjacent(rows, cols, wk[i - 1], wk[i]),
        in_lattice(rows, cols, wk[i - 1]),
{
    reveal(carve_progress);
    let n = wk.len();
    lemma_attach(g, rows, cols, seed, wk[i - 1], wk[i]);
    let g2 = carve(g, cols, wk[i - 1], wk[i]);
    assert forall|j: int| 0 <= j < i - 1 implies !visited(g2, #[trigger] wk[j]) by {
        assert(wk[j] != wk[i - 1]);
    }
    assert(carve_back(g0, cols, wk, n - 1 - (i - 1)) == carve(carve_back(g0, cols, wk, n - 1 - i), cols, wk[i - 1], wk[i]));
}

/// The choices as mathematical integers.
pub open spec fn as_ints(choices: Seq<usize>) -> Seq<int> {
    choices.map_values(|k: usize| k as int)
}

/// Feeding the first `i` choices leaves generation under way, and the next
/// choice is below the number of neighbours of the walk's last cell.
pub open spec fn choice_fits(
    g: Seq<Seq<Cell>>,
    rows: int,
    cols: int,
    walk: Seq<(int, int)>,
    cursor: (int, int),
    choices: Seq<int>,
    i: int,
) -> bool {
    let s = replay(g, rows, cols, walk, cursor, choices.take(i));
    s.2.0 < rows && choices[i] < neighbor_seq(rows, cols, s.1.last().0, s.1.last().1).len()
}

/// What a walk keeps from one step to the next: it lies in the lattice,
/// visits no cell twice, and moves between neighbours.
pub open spec fn walk_shape(rows: int, cols: int, wk: Seq<(int, int)>) -> bool {
    &&& wk.no_duplicates()
    &&& forall|i: int| 0 <= i < wk.len() ==> in_lattice(rows, cols, #[trigger] wk[i])
    &&& forall|i: int| 1 <= i < wk.len() ==> adjacent(rows, cols, wk[i - 1], #[trigger] wk[i])
}

/// Extending a walk to a neighbour of its last cell keeps its shape and its
/// first cell, and brings in no cell but that neighbour.
proof fn lemma_walk_extend(rows: int, cols: int, wk: Seq<(int, int)>, next: (int, int))
    requires
        wk.len() >= 1,
        walk_shape(rows, cols, wk),
        in_lattice(rows, cols, next),
        adjacent(rows, cols, wk.last(), next),
    ensures
        walk_extend(wk, next).len() >= 1,
        walk_extend(wk, next)[0] == wk[0],
        walk_shape(rows, cols, walk_extend(wk, next)),
        forall|i: int|
            0 <= i < walk_extend(wk, next).len() ==> #[trigger] walk_extend(wk, next)[i] == next
                || wk.contains(walk_extend(wk, next)[i]),
        !wk.contains(next) ==> walk_extend(wk, next) == wk.push(next),
{
    let w2 = walk_extend(wk, next);
    if wk.contains(next) {
        let k = wk.index_of(next);
        assert forall|i: int| 0 <= i < w2.len() implies #[trigger] w2[i] == next || wk.contains(w2[i]) by {
            assert(w2[i] == wk[i]);
        }
        assert forall|i: int| 1 <= i < w2.len() implies adjacent(rows, cols, w2[i - 1], #[trigger] w2[i]) by {
            assert(w2[i] == wk[i] && w2[i - 1] == wk[i - 1]);
        }
        assert forall|i: int| 0 <= i < w2.len() implies in_lattice(rows, cols, #[trigger] w2[i]) by {
            assert(w2[i] == wk[i]);
        }
    } else {
        assert forall|i: int| 0 <= i < w2.len() implies #[trigger] w2[i] == next || wk.contains(w2[i]) by {
            if i < wk.len() {
                assert(w2[i] == wk[i]);
            }
        }
        assert forall|i: int| 1 <= i < w2.len() implies adjacent(rows, cols, w2[i - 1], #[trigger] w2[i]) by {
            if i < wk.len() {
                assert(w2[i] == wk[i]);
            }
            assert(w2[i - 1] == wk[i - 1]);
        }
        assert forall|i: int| 0 <= i < w2.len() implies in_lattice(rows, cols, #[trigger] w2[i]) by {
            if i < wk.len() {
                assert(w2[i] == wk[i]);
            }
        }
    }
}

/// A run is determined by its choices: where two runs start from the same
/// state and are fed the same choices, and each stops at the first choice
/// that does not fit its step (as `Wilson::run` does), they use the same
/// number of choices and end in the same state.
pub proof fn lemma_run_determined(
    g: Seq<Seq<Cell>>,
    rows: int,
    cols: int,
    walk: Seq<(int, int)>,
    cursor: (int, int),
    choices: Seq<int>,
    u1: int,
    u2: int,
)
    requires
        0 <= u1 <= choices.len(),
        0 <= u2 <= choices.len(),
        forall|i: int| 0 <= i < u1 ==> #[trigger] choice_fits(g, rows, cols, walk, cursor, choices, i),
        forall|i: int| 0 <= i < u2 ==> #[trigger] choice_fits(g, rows, cols, walk, cursor, choices, i),
        u1 < choices.len() ==> !choice_fits(g, rows, cols, walk, cursor, choices, u1),
        u2 < choices.len() ==> !choice_fits(g, rows, cols, walk, cursor, choices, u2),
    ensures
        u1 == u2,
        replay(g, rows, cols, walk, cursor, choices.take(u1)) == replay(
            g,
            rows,
            cols,
            walk,
            cursor,
            choices.take(u2),
        ),
{
    if u1 < u2 {
        assert(choice_fits(g, rows, cols, walk, cursor, choices, u1));
    } else if u2 < u1 {
        assert(choice_fits(g, rows, cols, walk, cursor, choices, u2));
    }
}

/// Wilson's algorithm in progress: a maze whose tree grows from a seed cell
/// in the top row, the loop-erased walk under way, and the row-major scan
/// position of the cell that walk started from.
pub struct Wilson {
    maze: CylinderMaze,
    walk: Vec<(usize, usize)>,
    cursor_row: usize,
    cursor_col: usize,
    seed_col: usize,
}

impl Wilson {
    pub closed spec fn grid(&self) -> Seq<Seq<Cell>> {
        self.maze.cells()
    }

    pub closed spec fn rows(&self) -> int {
        self.maze.spec_rows()
    }

    pub closed spec fn cols(&self) -> int {
        self.maze.spec_cols()
    }

    pub closed spec fn walk(&self) -> Seq<(int, int)> {
        self.walk@.map_values(|p: (usize, usize)| pos(p))
    }

    pub closed spec fn cursor(&self) -> (int, int) {
        (self.cursor_row as int, self.cursor_col as int)
    }

    pub closed spec fn seed(&self) -> (int, int) {
        (0, self.seed_col as int)
    }

    /// Generation is over: the scan went past the last row.
    pub open spec fn done(&self) -> bool {
        self.cursor().0 >= self.rows()
    }

    /// What holds between steps: the grid is a tree grown from the seed; every
    /// cell before the cursor is in it; the walk starts at the cursor, runs
    /// through neighbouring cells outside the tree and visits none twice.
    pub closed spec fn inv(&self) -> bool {
        let g = self.grid();
        let rows = self.rows();
        let cols = self.cols();
        let walk = self.walk();
        &&& self.maze.wf()
        &&& maze_tree(g, rows, cols, self.seed())
        &&& (self.cursor() == (rows, 0int) && walk.len() == 0) || (in_lattice(rows, cols, self.cursor())
            && walk.len() >= 1 && walk[0] == self.cursor())
        &&& forall|c: (int, int)|
            in_lattice(rows, cols, c) && #[trigger] before(c, self.cursor()) ==> visited(g, c)
        &&& forall|i: int|
            0 <= i < walk.len() ==> in_lattice(rows, cols, #[trigger] walk[i]) && !visited(g, walk[i])
        &&& walk.no_duplicates()
        &&& forall|i: int| 1 <= i < walk.len() ==> adjacent(rows, cols, walk[i - 1], #[trigger] walk[i])
    }

    /// Moves the scan on from the cursor to the next cell outside the tree
    /// and starts the walk there.
    fn advance(&mut self)
        requires
            old(self).maze.wf(),
            maze_tree(old(self).grid(), old(self).rows(), old(self).cols(), old(self).seed()),
            old(self).walk@.len() == 0,
            in_lattice(old(self).rows(), old(self).cols(), old(self).cursor()),
            forall|c: (int, int)|
                in_lattice(old(self).rows(), old(self).cols(), c) && #[trigger] before(c, old(self).cursor())
                    ==> visited(old(self).grid(), c),
        ensures
            final(self).inv(),
            final(self).grid() == old(self).grid(),
            final(self).rows() == old(self).rows(),
            final(self).cols() == old(self).cols(),
            final(self).seed() == old(self).seed(),
            final(self).cursor() == scan(
                old(self).grid(),
                old(self).rows(),
                old(self).cols(),
                old(self).cursor().0,
                old(self).cursor().1,
            ),
            final(self).walk() == start_walk(final(self).rows(), final(self).cursor()),
    {
        let ghost g = self.grid();
        let ghost rows = self.rows();
        let ghost cols = self.cols();
        let ghost target = scan(g, rows, cols, self.cursor().0, self.cursor().1);
        let nrows = self.maze.rows();
        let ncols = self.maze.cols();
        let mut r = self.cursor_row;
        let mut c = self.cursor_col;
        while r < nrows && (c >= ncols || self.maze.cell(2 * r + 1, 2 * c + 1) == Cell::Path)
            invariant
                self.maze.wf(),
                g == self.grid(),
                rows == self.rows(),
                cols == self.cols(),
                nrows == rows,
                ncols == cols,
                r <= nrows,
                c <= ncols,
                scan(g, rows, cols, r as int, c as int) == target,
                forall|x: (int, int)|
                    in_lattice(rows, cols, x) && #[trigger] before(x, (r as int, c as int)) ==> visited(g, x),
            decreases nrows - r, ncols - c,
        {
            let ghost r0 = r as int;
            let ghost c0 = c as int;
            if c >= ncols {
                r += 1;
                c = 0;
            } else {
                proof {
                    assert(visited(g, (r0, c0)));
                }
                c += 1;
            }
            assert forall|x: (int, int)| in_lattice(rows, cols, x) && #[trigger] before(x, (r as int, c as int)) implies visited(g, x) by {
                if x != (r0, c0) {
                    assert(before(x, (r0, c0)));
                }
            }
        }
        if r < nrows {
            self.cursor_row = r;
            self.cursor_col = c;
            self.walk.push((r, c));
            assert(self.walk() =~= seq![(r as int, c as int)]);
        } else {
            self.cursor_row = nrows;
            self.cursor_col = 0;
            assert(self.walk() =~= seq![]);
            assert forall|x: (int, int)| in_lattice(rows, cols, x) && #[trigger] before(x, self.cursor()) implies visited(g, x) by {
                assert(before(x, (r as int, c as int)));
            }
        }
    }

    /// Starts Wilson's algorithm on a `rows` x `cols` maze whose tree is the
    /// single seed cell `(0, seed_col)`.
    pub fn new(rows: usize, cols: usize, seed_col: usize) -> (w: Self)
        requires
            rows >= 1,
            cols >= 1,
            rows < usize::MAX / 2,
            cols < usize::MAX / 2,
            seed_col < cols,
        ensures
            w.inv(),
            w.rows() == rows,
            w.cols() == cols,
            w.seed() == (0int, seed_col as int),
            w.grid() == seeded(rows as int, cols as int, seed_col as int),
            w.cursor() == scan(seeded(rows as int, cols as int, seed_col as int), rows as int, cols as int, 0, 0),
            w.walk() == start_walk(rows as int, w.cursor()),
    {
        let mut maze = CylinderMaze::new(rows, cols);
        let (gr, gc) = maze.cell_to_grid(0, seed_col);
        maze.set_cell(gr, gc, Cell::Path);
        let mut w = Wilson { maze, walk: Vec::new(), cursor_row: 0, cursor_col: 0, seed_col };
        proof {
            let h = 2 * rows + 1;
            let wd = 2 * cols + 1;
            let b = blank(h, wd);
            let g = w.grid();
            let s = storage_of((0, seed_col as int));
            assert(g == seeded(rows as int, cols as int, seed_col as int));
            assert forall|i: int, j: int| in_storage(h, wd, (i, j)) implies #[trigger] wall_ok(g, rows as int, cols as int, i, j) by {
                if (i, j) != s {
                    assert(at(g, (i, j)) == Cell::Wall);
                }
            }
            assert forall|c: (int, int)| in_lattice(rows as int, cols as int, c) && #[trigger] visited(g, c) implies reachable(
                g,
                h,
                wd,
                s,
                storage_of(c),
            ) by {
                assert(c == (0int, seed_col as int));
                let wk = seq![s];
                assert(is_walk(g, h, wd, wk));
                assert(wk[0] == s && wk.last() == s);
            }
            lemma_count_zero(b, h, wd, Cell::Path, 1);
            lemma_count_zero(b, h, 2 * cols as int, Cell::Path, 2);
            lemma_count_update(b, h, wd, s.0, s.1, Cell::Path, Cell::Path, 1);
            lemma_count_update(b, h, 2 * cols as int, s.0, s.1, Cell::Path, Cell::Path, 2);
            assert(carved_walls(g, rows as int, cols as int) == 0);
            assert(tree_cells(g, rows as int, cols as int) == 1);
        }
        w.advance();
        w
    }

    /// The number of neighbours of the walk's last cell: a step's choice is
    /// an index below it.
    pub open spec fn choice_count(&self) -> int {
        neighbor_seq(self.rows(), self.cols(), self.walk().last().0, self.walk().last().1).len() as int
    }

    /// Carves the walk, which has just reached the tree, into the tree: every
    /// pair of consecutive cells, from the end of the walk back.
    fn carve_walk(&mut self)
        requires
            old(self).maze.wf(),
            walk_ready(old(self).grid(), old(self).rows(), old(self).cols(), old(self).seed(), old(self).walk()),
        ensures
            final(self).maze.wf(),
            final(self).rows() == old(self).rows(),
            final(self).cols() == old(self).cols(),
            final(self).seed() == old(self).seed(),
            final(self).cursor() == old(self).cursor(),
            final(self).walk@ == old(self).walk@,
            final(self).grid() == carve_back(old(self).grid(), old(self).cols(), old(self).walk(), old(self).walk().len() - 1),
            maze_tree(final(self).grid(), final(self).rows(), final(self).cols(), final(self).seed()),
            forall|c: (int, int)|
                in_lattice(old(self).rows(), old(self).cols(), c) && #[trigger] visited(old(self).grid(), c) ==> visited(final(self).grid(), c),
    {
        let ghost g0 = self.grid();
        let ghost rows = self.rows();
        let ghost cols = self.cols();
        let ghost seed = self.seed();
        let ghost wk = self.walk();
        let n = self.walk.len();
        let mut i: usize = n - 1;
        proof {
            lemma_carve_progress_start(g0, rows, cols, seed, wk);
        }
        while i > 0
            invariant
                self.maze.wf(),
                rows == self.rows(),
                cols == self.cols(),
                seed == self.seed(),
                self.cursor() == old(self).cursor(),
                self.walk@ == old(self).walk@,
                wk == self.walk(),
                n == wk.len(),
                walk_ready(g0, rows, cols, seed, wk),
                0 <= i <= n - 1,
                carve_progress(g0, self.grid(), rows, cols, seed, wk, i as int),
            decreases i,
        {
            let a = self.walk[i - 1];
            let b = self.walk[i];
            let ghost g = self.grid();
            proof {
                assert(wk[i - 1] == pos(a));
                assert(wk[i as int] == pos(b));
                lemma_carve_progress_step(g0, g, rows, cols, seed, wk, i as int);
            }
            self.maze.carve_passage(a, b);
            i -= 1;
        }
        proof {
            reveal(carve_progress);
        }
    }

    /// One step of the loop-erased walk, to the neighbour with index `choice`
    /// of the walk's last cell; see `wilson_step`.
    pub fn step(&mut self, choice: usize)
        requires
            old(self).inv(),
            !old(self).done(),
            choice < old(self).choice_count(),
        ensures
            final(self).inv(),
            final(self).rows() == old(self).rows(),
            final(self).cols() == old(self).cols(),
            final(self).seed() == old(self).seed(),
            (final(self).grid(), final(self).walk(), final(self).cursor()) == wilson_step(
                old(self).grid(),
                old(self).rows(),
                old(self).cols(),
                old(self).walk(),
                old(self).cursor(),
                choice as int,
            ),
    {
        let ghost g = self.grid();
        let ghost rows = self.rows();
        let ghost cols = self.cols();
        let ghost wk = self.walk();
        let last = self.walk[self.walk.len() - 1];
        assert(pos(last) == wk.last());
        let neighbors = self.maze.get_neighbors(last.0, last.1);
        let next = neighbors[choice];
        let ghost nb = neighbor_seq(rows, cols, wk.last().0, wk.last().1);
        assert(pos(next) == nb[choice as int]);
        assert(adjacent(rows, cols, wk.last(), pos(next)));
        proof {
            crate::tree::lemma_adjacent_cases(rows, cols, wk.last(), pos(next));
            assert(walk_shape(rows, cols, wk));
        }
        let mut idx: usize = 0;
        while idx < self.walk.len() && !(self.walk[idx].0 == next.0 && self.walk[idx].1 == next.1)
            invariant
                idx <= self.walk@.len(),
                self.walk() == wk,
                forall|k: int| 0 <= k < idx ==> wk[k] != pos(next),
            decreases self.walk@.len() - idx,
        {
            idx += 1;
        }
        let ghost w2 = walk_extend(wk, pos(next));
        proof {
            lemma_walk_extend(rows, cols, wk, pos(next));
        }
        if idx < self.walk.len() {
            proof {
                assert(wk[idx as int] == pos(next));
                assert(wk.contains(pos(next)));
                assert(wk.index_of(pos(next)) == idx);
            }
            self.walk.truncate(idx + 1);
            assert(self.walk() =~= w2);
        } else {
            self.walk.push(next);
            assert(self.walk() =~= w2);
        }
        if self.maze.cell(2 * next.0 + 1, 2 * next.1 + 1) == Cell::Path {
            proof {
                assert(visited(g, pos(next)));
                assert(!wk.contains(pos(next)));
                assert forall|i: int| 0 <= i < w2.len() - 1 implies !visited(g, #[trigger] w2[i]) by {
                    assert(w2[i] == wk[i]);
                }
                assert(walk_ready(g, rows, cols, self.seed(), w2));
            }
            self.carve_walk();
            self.walk.clear();
            self.advance();
        } else {
            proof {
                assert forall|i: int| 0 <= i < w2.len() implies !visited(g, #[trigger] w2[i]) by {
                    if w2[i] != pos(next) {
                        let j = choose|j: int| 0 <= j < wk.len() && wk[j] == w2[i];
                    }
                }
            }
        }
    }

    /// Whether generation is over.
    pub fn is_done(&self) -> (r: bool)
        requires
            self.inv(),
        ensures
            r == self.done(),
    {
        self.cursor_row >= self.maze.rows()
    }

    /// The number of choices for the next step: the neighbours of the walk's
    /// last cell.
    pub fn choices(&self) -> (n: usize)
        requires
            self.inv(),
            !self.done(),
        ensures
            n == self.choice_count(),
    {
        let last = self.walk[self.walk.len() - 1];
        assert(pos(last) == self.walk().last());
        let neighbors = self.maze.get_neighbors(last.0, last.1);
        assert(neighbors@.len() == neighbors@.map_values(|p: (usize, usize)| pos(p)).len());
        neighbors.len()
    }

    /// Ends generation: the maze, the start cell `(0, start_col)` and the end
    /// cell `(rows - 1, end_col)`. Every cell is then in the tree.
    pub fn finish(self, start_col: usize, end_col: usize) -> (r: (CylinderMaze, (usize, usize), (usize, usize)))
        requires
            self.inv(),
            self.done(),
            start_col < self.cols(),
            end_col < self.cols(),
        ensures
            r.0.wf(),
            r.0.cells() == self.grid(),
            r.0.spec_rows() == self.rows(),
            r.0.spec_cols() == self.cols(),
            pos(r.1) == (0int, start_col as int),
            pos(r.2) == (self.rows() - 1, end_col as int),
            maze_tree(r.0.cells(), self.rows(), self.cols(), self.seed()),
            is_generated(r.0.cells(), self.rows(), self.cols()),
    {
        let ghost g = self.grid();
        proof {
            assert forall|c: (int, int)| in_lattice(self.rows(), self.cols(), c) implies #[trigger] visited(g, c) by {
                assert(before(c, self.cursor()));
            }
        }
        let rows = self.maze.rows();
        (self.maze, (0, start_col), (rows - 1, end_col))
    }

    /// Starts Wilson's algorithm with a seed cell drawn uniformly from the
    /// top row.
    pub fn start(rows: usize, cols: usize, rng: &mut StdRng) -> (w: Self)
        requires
            rows >= 1,
            cols >= 1,
            rows < usize::MAX / 2,
            cols < usize::MAX / 2,
        ensures
            w.inv(),
            w.rows() == rows,
            w.cols() == cols,
            w.seed().0 == 0 && 0 <= w.seed().1 < cols,
            w.grid() == seeded(rows as int, cols as int, w.seed().1),
            w.cursor() == scan(w.grid(), rows as int, cols as int, 0, 0),
            w.walk() == start_walk(rows as int, w.cursor()),
    {
        let seed_col = random_below(rng, cols);
        Wilson::new(rows, cols, seed_col)
    }

    /// Feeds `choices` to the generator in order, one step each, and stops
    /// at the first choice that finds generation over or is not below the
    /// number of choices of its step. Returns how many choices were used; the
    /// state is then `replay` of those.
    pub fn run(&mut self, choices: &Vec<usize>) -> (used: usize)
        requires
            old(self).inv(),
        ensures
            final(self).inv(),
            final(self).rows() == old(self).rows(),
            final(self).cols() == old(self).cols(),
            final(self).seed() == old(self).seed(),
            used <= choices@.len(),
            (final(self).grid(), final(self).walk(), final(self).cursor()) == replay(
                old(self).grid(),
                old(self).rows(),
                old(self).cols(),
                old(self).walk(),
                old(self).cursor(),
                as_ints(choices@).take(used as int),
            ),
            forall|i: int|
                0 <= i < used ==> #[trigger] choice_fits(
                    old(self).grid(),
                    old(self).rows(),
                    old(self).cols(),
                    old(self).walk(),
                    old(self).cursor(),
                    as_ints(choices@),
                    i,
                ),
            used < choices@.len() ==> !choice_fits(
                old(self).grid(),
                old(self).rows(),
                old(self).cols(),
                old(self).walk(),
                old(self).cursor(),
                as_ints(choices@),
                used as int,
            ),
    {
        let ghost g0 = self.grid();
        let ghost rows = self.rows();
        let ghost cols = self.cols();
        let ghost w0 = self.walk();
        let ghost k0 = self.cursor();
        let ghost ch = as_ints(choices@);
        let mut i: usize = 0;
        proof {
            assert(ch.take(0) =~= Seq::<int>::empty());
        }
        while i < choices.len()
            invariant
                self.inv(),
                rows == self.rows(),
                cols == self.cols(),
                rows == old(self).rows(),
                cols == old(self).cols(),
                g0 == old(self).grid(),
                w0 == old(self).walk(),
                k0 == old(self).cursor(),
                self.seed() == old(self).seed(),
                ch == as_ints(choices@),
                ch.len() == choices@.len(),
                i <= choices@.len(),
                (self.grid(), self.walk(), self.cursor()) == replay(g0, rows, cols, w0, k0, ch.take(i as int)),
                forall|j: int| 0 <= j < i ==> #[trigger] choice_fits(g0, rows, cols, w0, k0, ch, j),
            decreases choices@.len() - i,
        {
            if self.is_done() {
                return i;
            }
            let n = self.choices();
            let k = choices[i];
            if k >= n {
                return i;
            }
            let ghost before_step = (self.grid(), self.walk(), self.cursor());
            self.step(k);
            proof {
                assert(choice_fits(g0, rows, cols, w0, k0, ch, i as int));
                lemma_replay_one(before_step.0, rows, cols, before_step.1, before_step.2, k as int);
                lemma_replay_deterministic(g0, rows, cols, w0, k0, ch.take(i as int), seq![k as int]);
                assert(ch.take(i as int) + seq![k as int] =~= ch.take(i + 1));
            }
            i += 1;
        }
        i
    }

    /// One step of the walk, to a neighbour drawn uniformly at random.
    pub fn step_random(&mut self, rng: &mut StdRng)
        requires
            old(self).inv(),
            !old(self).done(),
        ensures
            final(self).inv(),
            final(self).rows() == old(self).rows(),
            final(self).cols() == old(self).cols(),
            final(self).seed() == old(self).seed(),
            exists|k: int|
                0 <= k < old(self).choice_count() && (final(self).grid(), final(self).walk(), final(self).cursor())
                    == #[trigger] wilson_step(
                    old(self).grid(),
                    old(self).rows(),
                    old(self).cols(),
                    old(self).walk(),
                    old(self).cursor(),
                    k,
                ),
    {
        let n = self.choices();
        let k = random_below(rng, n);
        self.step(k);
    }

    /// Ends generation with a start cell drawn uniformly from the top row,
    /// then an end cell drawn uniformly from the bottom row.
    pub fn finish_random(self, rng: &mut StdRng) -> (r: (CylinderMaze, (usize, usize), (usize, usize)))
        requires
            self.inv(),
            self.done(),
        ensures
            r.0.wf(),
            r.0.cells() == self.grid(),
            r.0.spec_rows() == self.rows(),
            r.0.spec_cols() == self.cols(),
            r.1.0 == 0 && r.1.1 < self.cols(),
            r.2.0 == self.rows() - 1 && r.2.1 < self.cols(),
            maze_tree(r.0.cells(), self.rows(), self.cols(), self.seed()),
            is_generated(r.0.cells(), self.rows(), self.cols()),
    {
        let cols = self.maze.cols();
        let start_col = random_below(rng, cols);
        let end_col = random_below(rng, cols);
        self.finish(start_col, end_col)
    }
}

} // verus!
