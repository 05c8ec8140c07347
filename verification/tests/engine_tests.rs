use mazegen::aldousbroder::AldousBroder;
use mazegen::binarytree::BinaryTree;
use mazegen::depthfirstsearch::DepthFirstSearch;
use mazegen::grid::Pos;
use mazegen::huntandkill::HuntAndKill;
use mazegen::kruskal::Kruskal;
use mazegen::maze::Maze;
use mazegen::prim::Prim;
use mazegen::randomizedprim::RandomizedPrim;
use mazegen::rng::rng_from_seed;
use mazegen::solver::Solver;
use mazegen::wilson::Wilson;
use rand::rngs::StdRng;

const FUEL: usize = 400_000;

fn drive<M: Maze>(m: &mut M, rng: &mut StdRng) -> bool {
    let mut steps: usize = 0;
    while steps < FUEL {
        if m.complete() {
            return true;
        }
        m.generate(rng);
        steps += 1;
    }
    m.complete()
}

fn spanning_tree_checks<M: Maze>(mut m: M, rng: &mut StdRng, width: usize, height: usize) {
    assert!(drive(&mut m, rng), "generation did not finish in time");
    // a perfect maze clears exactly one wall less than it has cells
    assert_eq!(m.grid().count_cleared(), width * height - 1);
    // and joins any two distinct cells
    if width * height >= 2 {
        let start = Pos::new(0, 0);
        let end = Pos::new(width - 1, height - 1);
        let mut solver = Solver::new(m.grid().clone(), start, end);
        assert!(solver.run());
        assert!(solver.stack.len() >= 1);
    }
}

#[test]
fn every_engine_builds_a_spanning_tree() {
    let mut rng = rng_from_seed(2024);
    spanning_tree_checks(DepthFirstSearch::new(5, 4, &mut rng), &mut rng, 5, 4);
    spanning_tree_checks(BinaryTree::new(5, 4, &mut rng), &mut rng, 5, 4);
    spanning_tree_checks(HuntAndKill::new(5, 4, &mut rng), &mut rng, 5, 4);
    spanning_tree_checks(Prim::new(5, 4, &mut rng), &mut rng, 5, 4);
    spanning_tree_checks(RandomizedPrim::new(5, 4, &mut rng), &mut rng, 5, 4);
    spanning_tree_checks(Kruskal::new(5, 4, &mut rng), &mut rng, 5, 4);
    spanning_tree_checks(AldousBroder::new(5, 4, &mut rng), &mut rng, 5, 4);
    spanning_tree_checks(Wilson::new(5, 4, &mut rng), &mut rng, 5, 4);
}

#[test]
fn one_cell_grid_needs_no_work() {
    let mut rng = rng_from_seed(7);
    // every engine reports completion right away, with zero steps
    assert!(DepthFirstSearch::new(1, 1, &mut rng).complete());
    assert!(BinaryTree::new(1, 1, &mut rng).complete());
    assert!(HuntAndKill::new(1, 1, &mut rng).complete());
    assert!(Prim::new(1, 1, &mut rng).complete());
    assert!(RandomizedPrim::new(1, 1, &mut rng).complete());
    assert!(Kruskal::new(1, 1, &mut rng).complete());
    assert!(AldousBroder::new(1, 1, &mut rng).complete());
    assert!(Wilson::new(1, 1, &mut rng).complete());
    // further steps change nothing, and no wall is ever cleared
    let mut dfs = DepthFirstSearch::new(1, 1, &mut rng);
    let mut bt = BinaryTree::new(1, 1, &mut rng);
    let mut hk = HuntAndKill::new(1, 1, &mut rng);
    let mut wi = Wilson::new(1, 1, &mut rng);
    for _ in 0..3 {
        dfs.generate(&mut rng);
        bt.generate(&mut rng);
        hk.generate(&mut rng);
        wi.generate(&mut rng);
    }
    assert!(dfs.complete() && bt.complete() && hk.complete() && wi.complete());
    assert_eq!(dfs.grid().count_cleared(), 0);
    assert_eq!(bt.grid().count_cleared(), 0);
    assert_eq!(hk.grid().count_cleared(), 0);
    assert_eq!(wi.grid().count_cleared(), 0);
}

#[test]
fn recent_cells_trail_follows_the_run() {
    let mut rng = rng_from_seed(91);
    let mut a = AldousBroder::new(3, 3, &mut rng);
    assert_eq!(a.last_posses.len(), 0);
    a.generate(&mut rng);
    // the cell just entered leads the trail
    assert_eq!(a.last_posses[0], a.current_pos);
    assert!(drive(&mut a, &mut rng));
    // the trail is dropped the moment the maze is finished
    assert_eq!(a.last_posses.len(), 0);
    let mut k = Kruskal::new(3, 3, &mut rng);
    assert_eq!(k.last_posses.len(), 0);
    k.generate(&mut rng);
    assert!(k.last_posses.len() >= 1);
    assert!(drive(&mut k, &mut rng));
    assert_eq!(k.last_posses.len(), 0);
}

#[test]
fn binary_tree_two_by_one_carves_the_second_cells_left_wall() {
    let mut rng = rng_from_seed(1);
    let mut bt = BinaryTree::new(2, 1, &mut rng);
    assert!(!bt.complete());
    bt.generate(&mut rng);
    assert!(!bt.complete());
    bt.generate(&mut rng);
    assert!(bt.complete());
    assert_eq!(bt.grid().count_cleared(), 1);
    assert!(!bt.grid().node_at(Pos::new(1, 0)).left);
    assert!(bt.grid().node_at(Pos::new(0, 0)).left);
    assert!(bt.grid().node_at(Pos::new(0, 0)).up);
    assert!(bt.grid().node_at(Pos::new(1, 0)).up);
}

#[test]
fn kruskal_three_by_three_ends_with_eight_walls_and_one_partition() {
    let mut rng = rng_from_seed(99);
    let mut k = Kruskal::new(3, 3, &mut rng);
    assert_eq!(k.num_sets, 9);
    assert!(drive(&mut k, &mut rng));
    assert_eq!(k.num_sets, 1);
    assert_eq!(k.grid().count_cleared(), 8);
}

#[test]
fn kruskal_partition_count_falls_by_one_per_carve() {
    let mut rng = rng_from_seed(5);
    let mut k = Kruskal::new(4, 4, &mut rng);
    assert_eq!(k.num_sets, 16);
    let mut steps: usize = 0;
    while !k.complete() && steps < FUEL {
        let before_sets = k.num_sets;
        let before_walls = k.grid().count_cleared();
        k.generate(&mut rng);
        // the count never rises, falls by at most one, and each fall
        // is matched by exactly one carved wall
        assert!(k.num_sets <= before_sets);
        assert!(before_sets - k.num_sets <= 1);
        assert_eq!(k.grid().count_cleared() - before_walls, before_sets - k.num_sets);
        assert!(k.num_sets >= 1);
        steps += 1;
    }
    assert!(k.complete());
    assert_eq!(k.num_sets, 1);
}

#[test]
fn prim_frontier_empty_exactly_when_all_visited() {
    let mut rng = rng_from_seed(21);
    let mut p = Prim::new(4, 3, &mut rng);
    let mut steps: usize = 0;
    while !p.complete() && steps < FUEL {
        let full = p.visited.len() == 12;
        let empty = p.edges.len() == 0;
        assert_eq!(empty, full);
        p.generate(&mut rng);
        steps += 1;
    }
    assert!(p.complete());
    assert_eq!(p.edges.len(), 0);
    assert_eq!(p.visited.len(), 12);
}

#[test]
fn randomized_prim_frontier_empty_exactly_when_all_visited() {
    let mut rng = rng_from_seed(22);
    let mut p = RandomizedPrim::new(3, 4, &mut rng);
    let mut steps: usize = 0;
    while !p.complete() && steps < FUEL {
        let full = p.visited.len() == 12;
        let empty = p.edges.len() == 0;
        assert_eq!(empty, full);
        p.generate(&mut rng);
        steps += 1;
    }
    assert!(p.complete());
    assert_eq!(p.edges.len(), 0);
}

#[test]
fn wilson_walk_never_repeats_a_cell() {
    let mut rng = rng_from_seed(33);
    let mut w = Wilson::new(4, 4, &mut rng);
    let mut steps: usize = 0;
    while !w.complete() && steps < FUEL {
        w.generate(&mut rng);
        for i in 0..w.walk.len() {
            for j in (i + 1)..w.walk.len() {
                assert_ne!(w.walk[i], w.walk[j], "loop erasure failed");
            }
        }
        steps += 1;
    }
    assert!(w.complete());
}

#[test]
fn wilson_walk_length_changes_every_step() {
    let mut rng = rng_from_seed(37);
    let mut w = Wilson::new(3, 3, &mut rng);
    let mut steps: usize = 0;
    while !w.complete() && steps < FUEL {
        let before = w.walk.len();
        w.generate(&mut rng);
        assert_ne!(w.walk.len(), before);
        steps += 1;
    }
    assert!(w.complete());
}

#[test]
fn depth_first_search_keeps_the_tree_balance() {
    let mut rng = rng_from_seed(44);
    let mut d = DepthFirstSearch::new(4, 4, &mut rng);
    let mut steps: usize = 0;
    while !d.complete() && steps < FUEL {
        d.generate(&mut rng);
        // cleared walls always number one less than visited cells:
        // no wall is ever cleared twice
        assert_eq!(d.grid().count_cleared() + 1, d.visited.len());
        steps += 1;
    }
    assert!(d.complete());
    assert_eq!(d.visited.len(), 16);
}

#[test]
fn reset_starts_over_on_a_fresh_grid() {
    let mut rng = rng_from_seed(55);
    let mut a = AldousBroder::new(3, 3, &mut rng);
    assert!(drive(&mut a, &mut rng));
    assert_eq!(a.grid().count_cleared(), 8);
    a.reset(&mut rng);
    assert!(!a.complete());
    assert_eq!(a.grid().count_cleared(), 0);
    assert!(drive(&mut a, &mut rng));
    assert_eq!(a.grid().count_cleared(), 8);
}

#[test]
fn generate_after_completion_changes_nothing() {
    let mut rng = rng_from_seed(66);
    let mut k = Kruskal::new(3, 2, &mut rng);
    assert!(drive(&mut k, &mut rng));
    let walls = k.grid().count_cleared();
    let sets = k.num_sets;
    for _ in 0..10 {
        k.generate(&mut rng);
    }
    assert_eq!(k.grid().count_cleared(), walls);
    assert_eq!(k.num_sets, sets);
    assert!(k.complete());
}

#[test]
fn same_seed_reproduces_the_same_maze() {
    let build = || {
        let mut rng = rng_from_seed(4242);
        let mut d = DepthFirstSearch::new(4, 4, &mut rng);
        assert!(drive(&mut d, &mut rng));
        d
    };
    let a = build();
    let b = build();
    for x in 0..4 {
        for y in 0..4 {
            let p = Pos::new(x, y);
            assert_eq!(a.grid().node_at(p), b.grid().node_at(p));
        }
    }
}

#[test]
fn kruskal_queue_holds_every_cell_once() {
    let mut rng = rng_from_seed(77);
    let k = Kruskal::new(3, 3, &mut rng);
    assert_eq!(k.unvisited.len(), 9);
    for x in 0..3 {
        for y in 0..3 {
            assert!(k.unvisited.contains(&Pos::new(x, y)));
        }
    }
}

#[test]
fn kruskal_starts_with_singleton_partitions_and_all_walls() {
    let mut rng = rng_from_seed(78);
    let k = Kruskal::new(3, 3, &mut rng);
    let mut labels = vec![];
    for y in 0..3 {
        for x in 0..3 {
            let n = k.node_at(Pos::new(x, y));
            assert!(n.up);
            assert!(n.left);
            assert!(!labels.contains(&n.set), "labels must start distinct");
            labels.push(n.set);
        }
    }
}
