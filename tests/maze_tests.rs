use cylinder_maze::{Cell, CylinderMaze, Wilson};
use rand::rngs::StdRng;
use rand::{Rng, SeedableRng};

fn generate(rows: usize, cols: usize, rng: &mut StdRng) -> (CylinderMaze, (usize, usize), (usize, usize)) {
    let mut w = Wilson::start(rows, cols, rng);
    while !w.is_done() {
        w.step_random(rng);
    }
    w.finish_random(rng)
}

fn carved_walls(maze: &CylinderMaze) -> usize {
    let grid = maze.grid();
    let mut n = 0;
    for (i, row) in grid.iter().enumerate() {
        for (j, cell) in row.iter().enumerate() {
            let own_cell = i % 2 == 1 && j % 2 == 1;
            let seam_copy = j == row.len() - 1;
            if !own_cell && !seam_copy && *cell == Cell::Path {
                n += 1;
            }
        }
    }
    n
}

fn path_positions(maze: &CylinderMaze) -> Vec<(usize, usize)> {
    let mut v = Vec::new();
    for (i, row) in maze.grid().iter().enumerate() {
        for (j, cell) in row.iter().enumerate() {
            if *cell == Cell::Path {
                v.push((i, j));
            }
        }
    }
    v
}

#[test]
fn test_maze_is_solvable() {
    let mut rng = StdRng::from_entropy();
    for _ in 0..10 {
        let (maze, start, end) = generate(10, 10, &mut rng);
        assert!(maze.can_solve(start, end), "Maze should be solvable from S to E");
    }
}

#[test]
fn test_small_maze_solvable() {
    let mut rng = StdRng::from_entropy();
    let (maze, start, end) = generate(3, 3, &mut rng);
    assert!(maze.can_solve(start, end), "Small maze should be solvable from S to E");
}

#[test]
fn test_large_maze_solvable() {
    let mut rng = StdRng::from_entropy();
    let (maze, start, end) = generate(50, 50, &mut rng);
    assert!(maze.can_solve(start, end), "Large maze should be solvable from S to E");
}

#[test]
fn test_unsolvable_maze() {
    let maze = CylinderMaze::new(3, 3);
    let start = (0, 0);
    let end = (2, 2);
    assert!(!maze.can_solve(start, end), "Maze with all walls should not be solvable");
}

#[test]
fn new_maze_is_all_walls() {
    let maze = CylinderMaze::new(3, 4);
    assert_eq!(maze.rows(), 3);
    assert_eq!(maze.cols(), 4);
    let grid = maze.grid();
    assert_eq!(grid.len(), 7);
    for row in grid {
        assert_eq!(row.len(), 9);
        assert!(row.iter().all(|c| *c == Cell::Wall));
    }
    assert_eq!(maze.cell(3, 5), Cell::Wall);
}

#[test]
fn cell_to_grid_doubles_and_offsets() {
    let maze = CylinderMaze::new(3, 4);
    assert_eq!(maze.cell_to_grid(0, 0), (1, 1));
    assert_eq!(maze.cell_to_grid(2, 3), (5, 7));
    assert_eq!(maze.cell_to_grid(1, 2), (3, 5));
}

#[test]
fn neighbors_on_the_cylinder() {
    let maze = CylinderMaze::new(3, 4);
    assert_eq!(maze.get_neighbors(0, 0), vec![(1, 0), (0, 3), (0, 1)]);
    assert_eq!(maze.get_neighbors(1, 2), vec![(0, 2), (2, 2), (1, 1), (1, 3)]);
    assert_eq!(maze.get_neighbors(2, 3), vec![(1, 3), (2, 2), (2, 0)]);
    let single = CylinderMaze::new(1, 1);
    assert_eq!(single.get_neighbors(0, 0), vec![(0, 0)]);
    let two = CylinderMaze::new(1, 2);
    assert_eq!(two.get_neighbors(0, 0), vec![(0, 1)]);
    assert_eq!(two.get_neighbors(0, 1), vec![(0, 0)]);
    let three = CylinderMaze::new(2, 3);
    assert_eq!(three.get_neighbors(1, 0), vec![(0, 0), (1, 2), (1, 1)]);
}

#[test]
fn carve_vertical_passage() {
    let mut maze = CylinderMaze::new(3, 3);
    maze.carve_passage((0, 1), (1, 1));
    assert_eq!(path_positions(&maze), vec![(1, 3), (2, 3), (3, 3)]);
}

#[test]
fn carve_horizontal_passage() {
    let mut maze = CylinderMaze::new(3, 3);
    maze.carve_passage((1, 1), (1, 0));
    assert_eq!(path_positions(&maze), vec![(3, 1), (3, 2), (3, 3)]);
}

#[test]
fn carve_across_the_seam_writes_both_walls() {
    let mut maze = CylinderMaze::new(3, 3);
    maze.carve_passage((1, 0), (1, 2));
    assert_eq!(path_positions(&maze), vec![(3, 0), (3, 1), (3, 5), (3, 6)]);
    let mut back = CylinderMaze::new(3, 3);
    back.carve_passage((1, 2), (1, 0));
    assert_eq!(path_positions(&back), vec![(3, 0), (3, 1), (3, 5), (3, 6)]);
    assert!(maze.can_solve((1, 0), (1, 2)));
    assert!(maze.can_solve((1, 2), (1, 0)));
    assert!(!maze.can_solve((1, 0), (0, 0)));
}

#[test]
fn can_solve_same_cell_on_walls() {
    let maze = CylinderMaze::new(2, 2);
    assert!(maze.can_solve((1, 1), (1, 1)));
    assert!(!maze.can_solve((0, 0), (1, 1)));
}

#[test]
fn can_solve_needs_every_wall_open() {
    let mut maze = CylinderMaze::new(1, 3);
    maze.carve_passage((0, 0), (0, 1));
    assert!(maze.can_solve((0, 0), (0, 1)));
    assert!(!maze.can_solve((0, 0), (0, 2)));
    maze.carve_passage((0, 1), (0, 2));
    assert!(maze.can_solve((0, 0), (0, 2)));
}

#[test]
fn wilson_steps_across_the_seam() {
    let mut w = Wilson::new(1, 2, 0);
    assert!(!w.is_done());
    assert_eq!(w.choices(), 1);
    w.step(0);
    assert!(w.is_done());
    let (maze, start, end) = w.finish(1, 1);
    assert_eq!(start, (0, 1));
    assert_eq!(end, (0, 1));
    let row = &maze.grid()[1];
    assert_eq!(row, &vec![Cell::Path, Cell::Path, Cell::Wall, Cell::Path, Cell::Path]);
    assert_eq!(carved_walls(&maze), 1);
}

#[test]
fn wilson_erases_a_loop_back_to_the_walk() {
    let mut w = Wilson::new(2, 1, 0);
    assert_eq!(w.choices(), 2);
    w.step(1);
    assert!(!w.is_done());
    w.step(0);
    assert!(w.is_done());
    let (maze, start, end) = w.finish(0, 0);
    assert_eq!(start, (0, 0));
    assert_eq!(end, (1, 0));
    assert_eq!(path_positions(&maze), vec![(1, 1), (2, 1), (3, 1)]);
}

#[test]
fn three_by_three_scenario() {
    let mut rng = StdRng::seed_from_u64(7);
    let (maze, _, _) = generate(3, 3, &mut rng);
    assert_eq!(maze.grid().len(), 7);
    assert!(maze.grid().iter().all(|row| row.len() == 7));
    assert_eq!(carved_walls(&maze), 8);
    for a in 0..9 {
        for b in 0..9 {
            assert!(maze.can_solve((a / 3, a % 3), (b / 3, b % 3)));
        }
    }
}

#[test]
fn every_cell_is_open_after_generation() {
    let mut rng = StdRng::seed_from_u64(1);
    for (rows, cols) in [(1, 1), (1, 5), (5, 1), (2, 2), (4, 7)] {
        let (maze, _, _) = generate(rows, cols, &mut rng);
        for r in 0..rows {
            for c in 0..cols {
                let (i, j) = maze.cell_to_grid(r, c);
                assert_eq!(maze.cell(i, j), Cell::Path);
            }
        }
    }
}

#[test]
fn edge_count_is_cells_minus_one() {
    let mut rng = StdRng::seed_from_u64(2);
    for (rows, cols) in [(1, 1), (1, 2), (2, 2), (3, 5), (6, 4), (8, 8)] {
        let (maze, _, _) = generate(rows, cols, &mut rng);
        assert_eq!(carved_walls(&maze), rows * cols - 1);
    }
}

#[test]
fn all_pairs_connected_after_generation() {
    let mut rng = StdRng::seed_from_u64(3);
    let (maze, _, _) = generate(4, 5, &mut rng);
    for a in 0..20 {
        for b in 0..20 {
            assert!(maze.can_solve((a / 5, a % 5), (b / 5, b % 5)));
        }
    }
}

#[test]
fn seam_walls_agree_and_borders_stay_closed() {
    let mut rng = StdRng::seed_from_u64(4);
    for (rows, cols) in [(3, 2), (5, 5), (10, 3)] {
        let (maze, _, _) = generate(rows, cols, &mut rng);
        let grid = maze.grid();
        let w = 2 * cols + 1;
        for i in 0..2 * rows + 1 {
            assert_eq!(grid[i][0], grid[i][w - 1]);
            if i % 2 == 0 {
                for j in (0..w).step_by(2) {
                    assert_eq!(grid[i][j], Cell::Wall);
                }
            }
        }
        assert!(grid[0].iter().all(|c| *c == Cell::Wall));
        assert!(grid[2 * rows].iter().all(|c| *c == Cell::Wall));
        if cols == 2 {
            for i in 0..rows {
                assert_eq!(grid[2 * i + 1][2], Cell::Wall);
            }
        }
    }
}

#[test]
fn same_seed_gives_same_maze() {
    let mut rng1 = StdRng::seed_from_u64(99);
    let mut rng2 = StdRng::seed_from_u64(99);
    let (m1, s1, e1) = generate(12, 9, &mut rng1);
    let (m2, s2, e2) = generate(12, 9, &mut rng2);
    assert_eq!(m1.grid(), m2.grid());
    assert_eq!(s1, s2);
    assert_eq!(e1, e2);
}

#[test]
fn start_and_end_lie_in_top_and_bottom_rows() {
    let mut rng = StdRng::seed_from_u64(5);
    for _ in 0..20 {
        let (maze, start, end) = generate(4, 6, &mut rng);
        assert_eq!(start.0, 0);
        assert!(start.1 < 6);
        assert_eq!(end.0, 3);
        assert!(end.1 < 6);
        assert!(maze.can_solve(start, end));
    }
}

#[test]
fn render_marks_start_end_walls_and_paths() {
    let mut maze = CylinderMaze::new(1, 2);
    maze.carve_passage((0, 0), (0, 1));
    let lines = maze.render((0, 0), (0, 1));
    let text: Vec<String> = lines.iter().map(|l| l.iter().collect()).collect();
    assert_eq!(text, vec!["\u{2588}\u{2588}\u{2588}\u{2588}\u{2588}", " S\u{2588}E ", "\u{2588}\u{2588}\u{2588}\u{2588}\u{2588}"]);
}

#[test]
fn run_feeds_choices_until_done() {
    let mut w = Wilson::new(1, 2, 0);
    let used = w.run(&vec![0, 0, 0]);
    assert_eq!(used, 1);
    assert!(w.is_done());
    let mut v = Wilson::new(2, 1, 0);
    assert_eq!(v.run(&vec![1, 5, 0]), 1);
    assert!(!v.is_done());
    assert_eq!(v.run(&vec![0]), 1);
    assert!(v.is_done());
}

#[test]
fn same_choices_give_same_run() {
    let mut rng = StdRng::seed_from_u64(11);
    let choices: Vec<usize> = (0..100_000).map(|_| rng.gen_range(0..3)).collect();
    let mut a = Wilson::new(6, 5, 3);
    let mut b = Wilson::new(6, 5, 3);
    let ua = a.run(&choices);
    let ub = b.run(&choices);
    assert_eq!(ua, ub);
    assert!(a.is_done() && b.is_done());
    assert!(ua < choices.len());
    let (ma, sa, ea) = a.finish(1, 2);
    let (mb, sb, eb) = b.finish(1, 2);
    assert_eq!(ma.grid(), mb.grid());
    assert_eq!((sa, ea), (sb, eb));
    assert_eq!(carved_walls(&ma), 29);
}
