use vstd::prelude::*;
use crate::count::{count_grid, lemma_count_update};

verus! {

/// The marker held at one position of the storage grid.
#[derive(Clone, Copy, Debug, PartialEq, Eq, Structural)]
pub enum Cell {
    Wall,
    Path,
}

/// A maze on the surface of a cylinder: `rows` x `cols` logical cells, with
/// columns wrapping around and rows bounded at top and bottom.
///
/// Storage is a `(2 * rows + 1) x (2 * cols + 1)` grid of markers: the odd
/// positions `(2r + 1, 2c + 1)` hold the logical cells, the positions between
/// them hold the walls.
pub struct CylinderMaze {
    grid: Vec<Vec<Cell>>,
    rows: usize,
    cols: usize,
}

/// A logical cell or a storage position, as a pair of mathematical integers.
pub open spec fn pos(p: (usize, usize)) -> (int, int) {
    (p.0 as int, p.1 as int)
}

/// The storage position of logical cell `c`.
pub open spec fn storage_of(c: (int, int)) -> (int, int) {
    (2 * c.0 + 1, 2 * c.1 + 1)
}

pub open spec fn in_lattice(rows: int, cols: int, c: (int, int)) -> bool {
    0 <= c.0 < rows && 0 <= c.1 < cols
}

/// A storage grid of `h` x `w` walls.
pub open spec fn blank(h: int, w: int) -> Seq<Seq<Cell>> {
    Seq::new(h as nat, |i: int| Seq::new(w as nat, |j: int| Cell::Wall))
}

/// A storage grid of `h` rows of `w` markers each.
pub open spec fn is_rect(g: Seq<Seq<Cell>>, h: int, w: int) -> bool {
    &&& g.len() == h
    &&& forall|i: int| 0 <= i < h ==> (#[trigger] g[i]).len() == w
}

pub open spec fn in_storage(h: int, w: int, p: (int, int)) -> bool {
    0 <= p.0 < h && 0 <= p.1 < w
}

pub open spec fn at(g: Seq<Seq<Cell>>, p: (int, int)) -> Cell {
    g[p.0][p.1]
}

/// `g` with the marker at `p` replaced by `v`.
pub open spec fn set_at(g: Seq<Seq<Cell>>, p: (int, int), v: Cell) -> Seq<Seq<Cell>> {
    g.update(p.0, g[p.0].update(p.1, v))
}

/// The logical neighbours of `(r, c)`, each listed once, in the order up,
/// down, left, right: no neighbour across the top or bottom edge, wrapping
/// left and right. With one or two columns the left and right neighbours are
/// the same cell, listed once.
pub open spec fn neighbor_seq(rows: int, cols: int, r: int, c: int) -> Seq<(int, int)> {
    let up: Seq<(int, int)> = if r > 0 { seq![(r - 1, c)] } else { seq![] };
    let down: Seq<(int, int)> = if r < rows - 1 { seq![(r + 1, c)] } else { seq![] };
    let left = if c == 0 { cols - 1 } else { c - 1 };
    let right = (c + 1) % cols;
    let across: Seq<(int, int)> = if right != left { seq![(r, left), (r, right)] } else { seq![(r, left)] };
    up + down + across
}

/// A cell has a neighbour above unless in the top row, one below unless in
/// the bottom row, and two across its row when there are three columns or
/// more, else one.
pub proof fn lemma_neighbor_count(rows: int, cols: int, r: int, c: int)
    requires
        rows >= 1,
        cols >= 1,
        0 <= r < rows,
        0 <= c < cols,
    ensures
        neighbor_seq(rows, cols, r, c).len() == (if r > 0 { 1int } else { 0int }) + (if r < rows - 1 {
            1int
        } else {
            0int
        }) + (if cols >= 3 { 2int } else { 1int }),
{
    if c + 1 == cols {
        assert((c + 1) % cols == 0) by {
            vstd::arithmetic::div_mod::lemma_mod_self_0(cols);
        }
    } else {
        assert((c + 1) % cols == c + 1) by {
            vstd::arithmetic::div_mod::lemma_small_mod((c + 1) as nat, cols as nat);
        }
    }
}

pub open spec fn adjacent(rows: int, cols: int, a: (int, int), b: (int, int)) -> bool {
    neighbor_seq(rows, cols, a.0, a.1).contains(b)
}

/// Whether a horizontal move between columns `c1` and `c2` crosses the seam
/// where the last column meets the first.
pub open spec fn crosses_seam(cols: int, c1: int, c2: int) -> bool {
    (c1 == 0 && c2 == cols - 1) || (c1 == cols - 1 && c2 == 0)
}

/// The grid after carving a passage between logical cells `a` and `b`: both
/// cells become `Path`, and so does the wall between them; across the seam
/// that wall is stored twice, at storage columns `0` and `2 * cols`.
pub open spec fn carve(g: Seq<Seq<Cell>>, cols: int, a: (int, int), b: (int, int)) -> Seq<
    Seq<Cell>,
> {
    let g2 = set_at(set_at(g, storage_of(a), Cell::Path), storage_of(b), Cell::Path);
    if a.0 == b.0 {
        if crosses_seam(cols, a.1, b.1) {
            set_at(set_at(g2, (2 * a.0 + 1, 0), Cell::Path), (2 * a.0 + 1, 2 * cols), Cell::Path)
        } else {
            set_at(g2, (2 * a.0 + 1, a.1 + b.1 + 1), Cell::Path)
        }
    } else {
        set_at(g2, (a.0 + b.0 + 1, 2 * a.1 + 1), Cell::Path)
    }
}

/// Adjacency of storage positions, as the solver walks them: up and down
/// within the grid, left and right wrapping around its width.
pub open spec fn storage_adjacent(h: int, w: int, a: (int, int), b: (int, int)) -> bool {
    ||| (a.0 > 0 && b == (a.0 - 1, a.1))
    ||| (a.0 + 1 < h && b == (a.0 + 1, a.1))
    ||| b == (a.0, if a.1 == 0 { w - 1 } else { a.1 - 1 })
    ||| b == (a.0, (a.1 + 1) % w)
}

/// `p` is a walk through the storage grid: its positions lie in the grid,
/// follow one another by storage adjacency, and all but the first are `Path`.
pub open spec fn is_walk(g: Seq<Seq<Cell>>, h: int, w: int, p: Seq<(int, int)>) -> bool {
    &&& p.len() >= 1
    &&& forall|i: int| 0 <= i < p.len() ==> in_storage(h, w, #[trigger] p[i])
    &&& forall|i: int|
        1 <= i < p.len() ==> at(g, #[trigger] p[i]) == Cell::Path && storage_adjacent(
            h,
            w,
            p[i - 1],
            p[i],
        )
}

/// Some walk leads from storage position `s` to storage position `e`.
pub open spec fn reachable(g: Seq<Seq<Cell>>, h: int, w: int, s: (int, int), e: (int, int)) -> bool {
    exists|p: Seq<(int, int)>| is_walk(g, h, w, p) && p[0] == s && p.last() == e
}

/// A grid of flags as nested sequences.
pub open spec fn flags(v: Vec<Vec<bool>>) -> Seq<Seq<bool>> {
    v@.map_values(|row: Vec<bool>| row@)
}

/// What a breadth-first search from `s` towards `e` keeps true about its
/// `seen` flags and its `queue`, of which the first `head` entries have been
/// expanded.
pub open spec fn bfs_inv(
    g: Seq<Seq<Cell>>,
    h: int,
    w: int,
    s: (int, int),
    e: (int, int),
    seen: Seq<Seq<bool>>,
    queue: Seq<(usize, usize)>,
    head: int,
) -> bool {
    &&& seen.len() == h
    &&& forall|i: int| 0 <= i < h ==> (#[trigger] seen[i]).len() == w
    &&& 0 <= head <= queue.len()
    &&& forall|k: int|
        0 <= k < queue.len() ==> in_storage(h, w, pos(#[trigger] queue[k])) && seen[queue[k].0 as int][queue[k].1 as int]
    &&& forall|i: int, j: int|
        in_storage(h, w, (i, j)) && #[trigger] seen[i][j] ==> exists|k: int|
            0 <= k < queue.len() && pos(#[trigger] queue[k]) == (i, j)
    &&& forall|k: int| 0 <= k < queue.len() ==> reachable(g, h, w, s, pos(#[trigger] queue[k]))
    &&& forall|k: int| 0 <= k < head ==> pos(#[trigger] queue[k]) != e
}

/// Every `Path` neighbour of an expanded queue entry has been seen.
pub open spec fn bfs_closed(
    g: Seq<Seq<Cell>>,
    h: int,
    w: int,
    seen: Seq<Seq<bool>>,
    queue: Seq<(usize, usize)>,
    head: int,
) -> bool {
    forall|k: int, p: (int, int)|
        0 <= k < head && in_storage(h, w, p) && storage_adjacent(h, w, pos(#[trigger] queue[k]), p)
            && #[trigger] at(g, p) == Cell::Path ==> seen[p.0][p.1]
}

/// A walk from an expanded entry stays among the seen positions when the
/// search has nothing left to expand.
proof fn lemma_walk_seen(
    g: Seq<Seq<Cell>>,
    h: int,
    w: int,
    s: (int, int),
    e: (int, int),
    seen: Seq<Seq<bool>>,
    queue: Seq<(usize, usize)>,
    p: Seq<(int, int)>,
    i: int,
)
    requires
        bfs_inv(g, h, w, s, e, seen, queue, queue.len() as int),
        bfs_closed(g, h, w, seen, queue, queue.len() as int),
        is_walk(g, h, w, p),
        seen[p[0].0][p[0].1],
        0 <= i < p.len(),
    ensures
        seen[p[i].0][p[i].1],
    decreases i,
{
    if i > 0 {
        lemma_walk_seen(g, h, w, s, e, seen, queue, p, i - 1);
        let q = p[i - 1];
        assert(in_storage(h, w, q));
        let k = choose|k: int| 0 <= k < queue.len() && pos(#[trigger] queue[k]) == q;
        assert(at(g, p[i]) == Cell::Path);
        assert(in_storage(h, w, p[i]));
    }
}

/// A `h` x `w` grid of `false` flags.
fn unseen_grid(h: usize, w: usize) -> (v: Vec<Vec<bool>>)
    ensures
        flags(v).len() == h,
        forall|i: int| 0 <= i < h ==> (#[trigger] flags(v)[i]).len() == w,
        forall|i: int, j: int| 0 <= i < h && 0 <= j < w ==> !(#[trigger] flags(v)[i][j]),
{
    let mut v: Vec<Vec<bool>> = Vec::new();
    let mut i: usize = 0;
    while i < h
        invariant
            i <= h,
            v@.len() == i,
            forall|k: int| 0 <= k < i ==> (#[trigger] v@[k])@.len() == w,
            forall|k: int, j: int| 0 <= k < i && 0 <= j < w ==> !(#[trigger] v@[k]@[j]),
        decreases h - i,
    {
        let mut row: Vec<bool> = Vec::new();
        let mut j: usize = 0;
        while j < w
            invariant
                j <= w,
                row@.len() == j,
                forall|k: int| 0 <= k < j ==> !row@[k],
            decreases w - j,
        {
            row.push(false);
            j += 1;
        }
        v.push(row);
        i += 1;
    }
    assert forall|i: int, j: int| 0 <= i < h && 0 <= j < w implies !(#[trigger] flags(v)[i][j]) by {
        assert(!v@[i]@[j]);
    }
    v
}

/// Raises the flag at `(r, c)`.
fn raise_flag(v: &mut Vec<Vec<bool>>, r: usize, c: usize)
    requires
        r < flags(*old(v)).len(),
        c < flags(*old(v))[r as int].len(),
    ensures
        flags(*final(v)) == flags(*old(v)).update(r as int, flags(*old(v))[r as int].update(c as int, true)),
{
    let mut row: Vec<bool> = Vec::new();
    std::mem::swap(&mut row, &mut v[r]);
    assert(row@ == flags(*old(v))[r as int]);
    row.set(c, true);
    std::mem::swap(&mut row, &mut v[r]);
    assert(flags(*v) =~= flags(*old(v)).update(r as int, flags(*old(v))[r as int].update(c as int, true)));
}

/// The character shown for storage position `(i, j)`: `S` at the start
/// cell, `E` at the end cell, a full block for a wall, a space for a path.
pub open spec fn glyph(g: Seq<Seq<Cell>>, s: (int, int), e: (int, int), i: int, j: int) -> char {
    if (i, j) == s {
        'S'
    } else if (i, j) == e {
        'E'
    } else if g[i][j] == Cell::Wall {
        '\u{2588}'
    } else {
        ' '
    }
}

/// A row of `n` walls.
fn wall_row(n: usize) -> (row: Vec<Cell>)
    ensures
        row@.len() == n,
        forall|j: int| 0 <= j < n ==> row@[j] == Cell::Wall,
{
    let mut row: Vec<Cell> = Vec::new();
    let mut j: usize = 0;
    while j < n
        invariant
            j <= n,
            row@.len() == j,
            forall|k: int| 0 <= k < j ==> row@[k] == Cell::Wall,
        decreases n - j,
    {
        row.push(Cell::Wall);
        j += 1;
    }
    row
}

impl CylinderMaze {
    /// The storage grid as nested sequences of markers.
    pub closed spec fn cells(&self) -> Seq<Seq<Cell>> {
        self.grid@.map_values(|row: Vec<Cell>| row@)
    }

    pub closed spec fn spec_rows(&self) -> int {
        self.rows as int
    }

    pub closed spec fn spec_cols(&self) -> int {
        self.cols as int
    }

    pub open spec fn height(&self) -> int {
        2 * self.spec_rows() + 1
    }

    pub open spec fn width(&self) -> int {
        2 * self.spec_cols() + 1
    }

    /// At least one row and one column, and a storage grid of the right shape.
    pub open spec fn wf(&self) -> bool {
        &&& self.spec_rows() >= 1
        &&& self.spec_cols() >= 1
        &&& 2 * self.spec_rows() + 1 <= usize::MAX
        &&& 2 * self.spec_cols() + 1 <= usize::MAX
        &&& is_rect(self.cells(), self.height(), self.width())
    }

    /// A maze of `rows` x `cols` cells, every storage position a `Wall`.
    pub fn new(rows: usize, cols: usize) -> (m: Self)
        requires
            rows >= 1,
            cols >= 1,
            rows < usize::MAX / 2,
            cols < usize::MAX / 2,
        ensures
            m.wf(),
            m.spec_rows() == rows,
            m.spec_cols() == cols,
            m.cells() == blank(m.height(), m.width()),
    {
        let grid_rows = 2 * rows + 1;
        let grid_cols = 2 * cols + 1;
        let mut grid: Vec<Vec<Cell>> = Vec::new();
        let mut i: usize = 0;
        while i < grid_rows
            invariant
                i <= grid_rows,
                grid@.len() == i,
                forall|k: int| 0 <= k < i ==> (#[trigger] grid@[k])@.len() == grid_cols,
                forall|k: int, j: int|
                    0 <= k < i && 0 <= j < grid_cols ==> #[trigger] grid@[k]@[j] == Cell::Wall,
            decreases grid_rows - i,
        {
            grid.push(wall_row(grid_cols));
            i += 1;
        }
        let m = CylinderMaze { grid, rows, cols };
        assert forall|i: int, j: int| 0 <= i < m.height() && 0 <= j < m.width() implies m.cells()[i][j]
            == Cell::Wall by {
            assert(m.grid@[i]@[j] == Cell::Wall);
        }
        assert(m.cells() =~~= blank(m.height(), m.width()));
        m
    }

    /// The storage grid, read-only.
    pub fn grid(&self) -> (g: &Vec<Vec<Cell>>)
        ensures
            g@.map_values(|row: Vec<Cell>| row@) == self.cells(),
    {
        &self.grid
    }

    /// The number of logical rows.
    pub fn rows(&self) -> (r: usize)
        ensures
            r == self.spec_rows(),
    {
        self.rows
    }

    /// The number of logical columns.
    pub fn cols(&self) -> (c: usize)
        ensures
            c == self.spec_cols(),
    {
        self.cols
    }

    /// The marker at storage position `(r, c)`.
    pub fn cell(&self, r: usize, c: usize) -> (m: Cell)
        requires
            self.wf(),
            r < self.height(),
            c < self.width(),
        ensures
            m == at(self.cells(), (r as int, c as int)),
    {
        assert(self.grid@[r as int]@ == self.cells()[r as int]);
        self.grid[r][c]
    }

    /// The storage position of logical cell `(row, col)`.
    pub fn cell_to_grid(&self, row: usize, col: usize) -> (p: (usize, usize))
        requires
            self.wf(),
            row < self.spec_rows(),
            col < self.spec_cols(),
        ensures
            pos(p) == storage_of((row as int, col as int)),
    {
        (2 * row + 1, 2 * col + 1)
    }

    /// The logical neighbours of `(row, col)` on the cylinder.
    pub fn get_neighbors(&self, row: usize, col: usize) -> (n: Vec<(usize, usize)>)
        requires
            self.wf(),
            row < self.spec_rows(),
            col < self.spec_cols(),
        ensures
            n@.map_values(|p: (usize, usize)| pos(p)) == neighbor_seq(
                self.spec_rows(),
                self.spec_cols(),
                row as int,
                col as int,
            ),
            n@.no_duplicates(),
            n@.len() == (if row > 0 { 1int } else { 0int }) + (if row + 1 < self.spec_rows() {
                1int
            } else {
                0int
            }) + (if self.spec_cols() >= 3 { 2int } else { 1int }),
    {
        let mut neighbors: Vec<(usize, usize)> = Vec::new();
        if row > 0 {
            neighbors.push((row - 1, col));
        }
        if row < self.rows - 1 {
            neighbors.push((row + 1, col));
        }
        let left_col = if col == 0 {
            self.cols - 1
        } else {
            col - 1
        };
        neighbors.push((row, left_col));
        let right_col = (col + 1) % self.cols;
        if right_col != left_col {
            neighbors.push((row, right_col));
        }
        proof {
            lemma_neighbor_count(self.spec_rows(), self.spec_cols(), row as int, col as int);
        }
        assert(neighbors@.map_values(|p: (usize, usize)| pos(p)) =~= neighbor_seq(
            self.spec_rows(),
            self.spec_cols(),
            row as int,
            col as int,
        ));
        neighbors
    }

    /// Writes marker `v` at storage position `(r, c)`.
    pub(crate) fn set_cell(&mut self, r: usize, c: usize, v: Cell)
        requires
            old(self).wf(),
            r < old(self).height(),
            c < old(self).width(),
        ensures
            final(self).wf(),
            final(self).spec_rows() == old(self).spec_rows(),
            final(self).spec_cols() == old(self).spec_cols(),
            final(self).cells() == set_at(old(self).cells(), (r as int, c as int), v),
    {
        let mut row: Vec<Cell> = Vec::new();
        std::mem::swap(&mut row, &mut self.grid[r]);
        assert(row@ == old(self).cells()[r as int]);
        row.set(c, v);
        std::mem::swap(&mut row, &mut self.grid[r]);
        assert(self.cells() =~= set_at(old(self).cells(), (r as int, c as int), v));
    }

    /// Carves a passage between the neighbouring logical cells `from` and
    /// `to`: both cells and the wall between them become `Path`. Across the
    /// seam the wall is written at both storage columns `0` and `2 * cols`.
    pub fn carve_passage(&mut self, from: (usize, usize), to: (usize, usize))
        requires
            old(self).wf(),
            in_lattice(old(self).spec_rows(), old(self).spec_cols(), pos(from)),
            adjacent(old(self).spec_rows(), old(self).spec_cols(), pos(from), pos(to)),
        ensures
            final(self).wf(),
            final(self).spec_rows() == old(self).spec_rows(),
            final(self).spec_cols() == old(self).spec_cols(),
            final(self).cells() == carve(old(self).cells(), old(self).spec_cols(), pos(from), pos(to)),
    {
        let ghost rows = self.spec_rows();
        let ghost cols = self.spec_cols();
        proof {
            let n = neighbor_seq(rows, cols, from.0 as int, from.1 as int);
            let k = choose|k: int| 0 <= k < n.len() && n[k] == pos(to);
            assert(in_lattice(rows, cols, pos(to)));
        }
        let (from_r, from_c) = self.cell_to_grid(from.0, from.1);
        let (to_r, to_c) = self.cell_to_grid(to.0, to.1);
        self.set_cell(from_r, from_c, Cell::Path);
        self.set_cell(to_r, to_c, Cell::Path);
        if from.0 == to.0 {
            if (from.1 == 0 && to.1 == self.cols - 1) || (from.1 == self.cols - 1 && to.1 == 0) {
                let grid_cols = 2 * self.cols + 1;
                self.set_cell(from_r, 0, Cell::Path);
                self.set_cell(from_r, grid_cols - 1, Cell::Path);
            } else {
                let wall_c = from.1 + to.1 + 1;
                self.set_cell(from_r, wall_c, Cell::Path);
            }
        } else {
            let wall_r = from.0 + to.0 + 1;
            self.set_cell(wall_r, from_c, Cell::Path);
        }
    }

    /// One step of the search: queue `(nr, nc)`, a storage neighbour of the
    /// expanded entry `x`, if it is `Path` and not yet seen.
    fn bfs_visit(
        &self,
        seen: &mut Vec<Vec<bool>>,
        queue: &mut Vec<(usize, usize)>,
        x: (usize, usize),
        nr: usize,
        nc: usize,
        Ghost(s): Ghost<(int, int)>,
        Ghost(e): Ghost<(int, int)>,
        Ghost(head): Ghost<int>,
    )
        requires
            self.wf(),
            bfs_inv(self.cells(), self.height(), self.width(), s, e, flags(*old(seen)), old(queue)@, head),
            reachable(self.cells(), self.height(), self.width(), s, pos(x)),
            in_storage(self.height(), self.width(), pos(x)),
            storage_adjacent(self.height(), self.width(), pos(x), (nr as int, nc as int)),
            in_storage(self.height(), self.width(), (nr as int, nc as int)),
        ensures
            bfs_inv(self.cells(), self.height(), self.width(), s, e, flags(*final(seen)), final(queue)@, head),
            flags(*final(seen))[nr as int][nc as int] || at(self.cells(), (nr as int, nc as int)) != Cell::Path,
            forall|i: int, j: int|
                0 <= i < self.height() && 0 <= j < self.width() && #[trigger] flags(*old(seen))[i][j]
                    ==> flags(*final(seen))[i][j],
            final(queue)@.len() >= old(queue)@.len(),
            forall|k: int| 0 <= k < old(queue)@.len() ==> final(queue)@[k] == old(queue)@[k],
            count_grid(flags(*final(seen)), self.height(), self.width(), false, 0) + final(queue)@.len()
                == count_grid(flags(*old(seen)), self.height(), self.width(), false, 0) + old(queue)@.len(),
    {
        let ghost g = self.cells();
        let ghost h = self.height();
        let ghost w = self.width();
        let ghost v0 = flags(*seen);
        let ghost q0 = queue@;
        assert(seen@[nr as int]@ == v0[nr as int]);
        if !seen[nr][nc] && self.grid[nr][nc] == Cell::Path {
            assert(self.grid@[nr as int]@ == g[nr as int]);
            raise_flag(seen, nr, nc);
            queue.push((nr, nc));
            proof {
                let v1 = flags(*seen);
                let q1 = queue@;
                lemma_count_update(v0, h, w, nr as int, nc as int, true, false, 0);
                let wk = choose|wk: Seq<(int, int)>| is_walk(g, h, w, wk) && wk[0] == s && wk.last() == pos(x);
                let wk2 = wk.push((nr as int, nc as int));
                assert(is_walk(g, h, w, wk2)) by {
                    assert forall|i: int| 1 <= i < wk2.len() implies at(g, #[trigger] wk2[i]) == Cell::Path
                        && storage_adjacent(h, w, wk2[i - 1], wk2[i]) by {
                        if i < wk.len() {
                            assert(wk2[i] == wk[i]);
                            assert(wk2[i - 1] == wk[i - 1]);
                        }
                    }
                    assert forall|i: int| 0 <= i < wk2.len() implies in_storage(h, w, #[trigger] wk2[i]) by {
                        if i < wk.len() {
                            assert(wk2[i] == wk[i]);
                        }
                    }
                }
                assert(wk2[0] == s && wk2.last() == (nr as int, nc as int));
                assert forall|k: int| 0 <= k < q1.len() implies reachable(g, h, w, s, pos(#[trigger] q1[k])) by {
                    if k < q0.len() {
                        assert(q1[k] == q0[k]);
                    }
                }
                assert forall|k: int| 0 <= k < q1.len() implies in_storage(h, w, pos(#[trigger] q1[k]))
                    && v1[q1[k].0 as int][q1[k].1 as int] by {
                    if k < q0.len() {
                        assert(q1[k] == q0[k]);
                    }
                }
                assert forall|i: int, j: int| in_storage(h, w, (i, j)) && #[trigger] v1[i][j] implies exists|k: int|
                    0 <= k < q1.len() && pos(#[trigger] q1[k]) == (i, j) by {
                    if i == nr && j == nc {
                        assert(pos(q1[q0.len() as int]) == (i, j));
                    } else {
                        assert(v0[i][j]);
                        let k = choose|k: int| 0 <= k < q0.len() && pos(#[trigger] q0[k]) == (i, j);
                        assert(q1[k] == q0[k]);
                    }
                }
                assert forall|k: int| 0 <= k < head implies pos(#[trigger] q1[k]) != e by {
                    assert(q1[k] == q0[k]);
                }
            }
        } else {
            assert(self.grid@[nr as int]@ == g[nr as int]);
        }
    }

    /// Whether logical cell `end` can be reached from logical cell `start`:
    /// a breadth-first search over storage positions, from the position of
    /// `start`, moving up, down, left and right (left and right wrap around
    /// the grid's width) through `Path` positions only.
    pub fn can_solve(&self, start: (usize, usize), end: (usize, usize)) -> (r: bool)
        requires
            self.wf(),
            in_lattice(self.spec_rows(), self.spec_cols(), pos(start)),
            in_lattice(self.spec_rows(), self.spec_cols(), pos(end)),
        ensures
            r == reachable(self.cells(), self.height(), self.width(), storage_of(pos(start)), storage_of(pos(end))),
    {
        let ghost g = self.cells();
        let ghost h = self.height();
        let ghost w = self.width();
        let ghost s = storage_of(pos(start));
        let ghost e = storage_of(pos(end));
        let (start_r, start_c) = self.cell_to_grid(start.0, start.1);
        let (end_r, end_c) = self.cell_to_grid(end.0, end.1);
        let grid_rows = 2 * self.rows + 1;
        let grid_cols = 2 * self.cols + 1;
        let mut seen = unseen_grid(grid_rows, grid_cols);
        let mut queue: Vec<(usize, usize)> = Vec::new();
        raise_flag(&mut seen, start_r, start_c);
        queue.push((start_r, start_c));
        proof {
            let v = flags(seen);
            let wk = seq![s];
            assert(is_walk(g, h, w, wk));
            assert(wk[0] == s && wk.last() == s);
            assert(pos(queue@[0]) == s);
            assert(reachable(g, h, w, s, pos(queue@[0])));
            assert forall|i: int, j: int| in_storage(h, w, (i, j)) && #[trigger] v[i][j] implies exists|k: int|
                0 <= k < queue@.len() && pos(#[trigger] queue@[k]) == (i, j) by {
                assert(pos(queue@[0]) == (i, j));
            }
        }
        let mut head: usize = 0;
        while head < queue.len()
            invariant
                self.wf(),
                g == self.cells(),
                h == self.height(),
                w == self.width(),
                grid_rows == h,
                grid_cols == w,
                s == storage_of(pos(start)),
                e == storage_of(pos(end)),
                pos((end_r, end_c)) == e,
                queue@.len() >= 1,
                queue@[0] == (start_r, start_c),
                pos((start_r, start_c)) == s,
                bfs_inv(g, h, w, s, e, flags(seen), queue@, head as int),
                bfs_closed(g, h, w, flags(seen), queue@, head as int),
            decreases count_grid(flags(seen), h, w, false, 0) + queue@.len() - head,
        {
            let (r, c) = queue[head];
            if r == end_r && c == end_c {
                return true;
            }
            head += 1;
            let ghost v0 = flags(seen);
            let ghost q0 = queue@;
            if r > 0 {
                self.bfs_visit(&mut seen, &mut queue, (r, c), r - 1, c, Ghost(s), Ghost(e), Ghost(head as int));
            }
            if r + 1 < grid_rows {
                self.bfs_visit(&mut seen, &mut queue, (r, c), r + 1, c, Ghost(s), Ghost(e), Ghost(head as int));
            }
            let left_c = if c == 0 {
                grid_cols - 1
            } else {
                c - 1
            };
            self.bfs_visit(&mut seen, &mut queue, (r, c), r, left_c, Ghost(s), Ghost(e), Ghost(head as int));
            let right_c = (c + 1) % grid_cols;
            self.bfs_visit(&mut seen, &mut queue, (r, c), r, right_c, Ghost(s), Ghost(e), Ghost(head as int));
            proof {
                let v1 = flags(seen);
                let q1 = queue@;
                assert forall|k: int, p: (int, int)|
                    0 <= k < head && in_storage(h, w, p) && storage_adjacent(h, w, pos(#[trigger] q1[k]), p)
                        && #[trigger] at(g, p) == Cell::Path implies v1[p.0][p.1] by {
                    assert(q1[k] == q0[k]);
                    if k < head - 1 {
                        assert(v0[p.0][p.1]);
                    }
                }
            }
        }
        proof {
            if reachable(g, h, w, s, e) {
                let wk = choose|wk: Seq<(int, int)>| is_walk(g, h, w, wk) && wk[0] == s && wk.last() == e;
                lemma_walk_seen(g, h, w, s, e, flags(seen), queue@, wk, wk.len() - 1);
                assert(in_storage(h, w, e));
                let k = choose|k: int| 0 <= k < queue@.len() && pos(#[trigger] queue@[k]) == e;
            }
        }
        false
    }

    /// The maze as lines of characters, one per storage row, with the start
    /// and end cells marked.
    pub fn render(&self, start: (usize, usize), end: (usize, usize)) -> (lines: Vec<Vec<char>>)
        requires
            self.wf(),
            in_lattice(self.spec_rows(), self.spec_cols(), pos(start)),
            in_lattice(self.spec_rows(), self.spec_cols(), pos(end)),
        ensures
            lines@.len() == self.height(),
            forall|i: int| 0 <= i < self.height() ==> (#[trigger] lines@[i])@.len() == self.width(),
            forall|i: int, j: int|
                0 <= i < self.height() && 0 <= j < self.width() ==> #[trigger] lines@[i]@[j] == glyph(
                    self.cells(),
                    storage_of(pos(start)),
                    storage_of(pos(end)),
                    i,
                    j,
                ),
    {
        let ghost g = self.cells();
        let ghost s = storage_of(pos(start));
        let ghost e = storage_of(pos(end));
        let (start_r, start_c) = self.cell_to_grid(start.0, start.1);
        let (end_r, end_c) = self.cell_to_grid(end.0, end.1);
        let grid_rows = 2 * self.rows + 1;
        let grid_cols = 2 * self.cols + 1;
        let mut lines: Vec<Vec<char>> = Vec::new();
        let mut r: usize = 0;
        while r < grid_rows
            invariant
                self.wf(),
                g == self.cells(),
                grid_rows == self.height(),
                grid_cols == self.width(),
                pos((start_r, start_c)) == s,
                pos((end_r, end_c)) == e,
                r <= grid_rows,
                lines@.len() == r,
                forall|i: int| 0 <= i < r ==> (#[trigger] lines@[i])@.len() == grid_cols,
                forall|i: int, j: int|
                    0 <= i < r && 0 <= j < grid_cols ==> #[trigger] lines@[i]@[j] == glyph(g, s, e, i, j),
            decreases grid_rows - r,
        {
            let mut line: Vec<char> = Vec::new();
            let mut c: usize = 0;
            while c < grid_cols
                invariant
                    self.wf(),
                    g == self.cells(),
                    grid_rows == self.height(),
                    grid_cols == self.width(),
                    pos((start_r, start_c)) == s,
                    pos((end_r, end_c)) == e,
                    r < grid_rows,
                    c <= grid_cols,
                    line@.len() == c,
                    forall|j: int| 0 <= j < c ==> line@[j] == glyph(g, s, e, r as int, j),
                decreases grid_cols - c,
            {
                let ch = if r == start_r && c == start_c {
                    'S'
                } else if r == end_r && c == end_c {
                    'E'
                } else if self.cell(r, c) == Cell::Wall {
                    '\u{2588}'
                } else {
                    ' '
                };
                line.push(ch);
                c += 1;
            }
            lines.push(line);
            r += 1;
        }
        lines
    }
}

} // verus!
