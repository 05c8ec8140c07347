use mazegen::depthfirstsearch::DepthFirstSearch;
use mazegen::grid::{Grid, Pos};
use mazegen::maze::Maze;
use mazegen::rng::rng_from_seed;
use mazegen::solver::Solver;

fn finished_maze(width: usize, height: usize, seed: u64) -> Grid {
    let mut rng = rng_from_seed(seed);
    let mut d = DepthFirstSearch::new(width, height, &mut rng);
    let mut steps: usize = 0;
    while !d.complete() && steps < 400_000 {
        d.generate(&mut rng);
        steps += 1;
    }
    assert!(d.complete());
    d.grid().clone()
}

#[test]
fn solver_finds_the_path_on_a_finished_maze() {
    let g = finished_maze(6, 5, 3);
    let mut s = Solver::new(g, Pos::new(0, 0), Pos::new(5, 4));
    assert!(s.run());
    assert!(s.stack.len() >= 1);
    assert_eq!(s.stack[0], Pos::new(0, 0));
}

#[test]
fn solver_path_crosses_only_open_walls() {
    let g = finished_maze(5, 5, 8);
    let mut s = Solver::new(g.clone(), Pos::new(4, 4), Pos::new(0, 0));
    assert!(s.run());
    // consecutive path cells are lattice neighbours
    for k in 0..s.stack.len() - 1 {
        let a = s.stack[k];
        let b = s.stack[k + 1];
        assert_eq!(a.x.abs_diff(b.x) + a.y.abs_diff(b.y), 1);
    }
    // and the last one borders the end cell
    let last = s.stack[s.stack.len() - 1];
    assert_eq!(last.x.abs_diff(0) + last.y.abs_diff(0), 1);
}

#[test]
fn solver_reports_failure_on_a_sealed_grid() {
    // a fresh grid has every wall present: nothing is reachable
    let g = Grid::new(3, 3);
    let mut s = Solver::new(g, Pos::new(0, 0), Pos::new(2, 2));
    assert!(!s.run());
}

#[test]
fn solver_step_by_step_reaches_the_same_answer() {
    let g = finished_maze(4, 4, 13);
    let mut s = Solver::new(g, Pos::new(0, 0), Pos::new(3, 3));
    let mut found = false;
    let mut steps: usize = 0;
    while !found && s.stack.len() > 0 && steps < 400_000 {
        found = s.solve();
        steps += 1;
    }
    assert!(found);
    // once successful, another call reports success again and leaves
    // the search untouched
    let stack_before = s.stack.clone();
    assert!(s.solve());
    assert_eq!(s.stack, stack_before);
}

#[test]
fn set_maze_restarts_the_search() {
    let g1 = finished_maze(4, 4, 17);
    let mut s = Solver::new(g1, Pos::new(0, 0), Pos::new(3, 3));
    assert!(s.run());
    let g2 = Grid::new(4, 4);
    s.set_maze(g2);
    assert!(!s.run());
    let g3 = finished_maze(4, 4, 18);
    s.set_maze(g3);
    assert!(s.run());
}
