use mazegen::cellset::CellSet;
use mazegen::grid::{Direction, Grid, Node, Pos};
use mazegen::kruskal::KruskalNode;
use mazegen::maze::Algorithm;
use mazegen::rng::rng_from_seed;

#[test]
fn direction_carries_its_destination() {
    let p = Pos::new(3, 5);
    assert_eq!(Direction::Up(p).get_pos(), p);
    assert_eq!(Direction::Down(p).get_pos(), p);
    assert_eq!(Direction::Left(p).get_pos(), p);
    assert_eq!(Direction::Right(p).get_pos(), p);
}

#[test]
fn node_starts_with_both_walls() {
    let n = Node::new();
    assert!(n.up);
    assert!(n.left);
}

#[test]
fn kruskal_node_starts_with_both_walls() {
    let n = KruskalNode::new(7);
    assert!(n.up);
    assert!(n.left);
    assert_eq!(n.set, 7);
}

#[test]
fn corner_cell_has_two_neighbors() {
    let p = Pos::new(0, 0);
    let ns = p.get_neighbors(3, 3);
    assert_eq!(ns.len(), 2);
    for d in &ns {
        let q = d.get_pos();
        assert!(q.x < 3 && q.y < 3);
        assert_eq!(q.x.abs_diff(p.x) + q.y.abs_diff(p.y), 1);
    }
}

#[test]
fn center_cell_has_four_neighbors() {
    let p = Pos::new(1, 1);
    let ns = p.get_neighbors(3, 3);
    assert_eq!(ns.len(), 4);
}

#[test]
fn single_cell_has_no_neighbors() {
    let p = Pos::new(0, 0);
    let ns = p.get_neighbors(1, 1);
    assert_eq!(ns.len(), 0);
}

#[test]
fn neighbors_filtered_by_set() {
    let mut set = CellSet::new(3, 3);
    set.insert(Pos::new(1, 0));
    let p = Pos::new(1, 1);
    let outside = p.neighbors_not_in(&set);
    assert_eq!(outside.len(), 3);
    for d in &outside {
        assert_ne!(d.get_pos(), Pos::new(1, 0));
    }
    let inside = p.neighbors_in(&set);
    assert_eq!(inside.len(), 1);
    assert_eq!(inside[0].get_pos(), Pos::new(1, 0));
    assert!(p.has_neighbors_in(&set));
    assert!(!Pos::new(2, 2).has_neighbors_in(&set));
}

#[test]
fn random_neighbor_is_a_real_neighbor() {
    let mut rng = rng_from_seed(11);
    let p = Pos::new(0, 2);
    for _ in 0..50 {
        let d = p.get_random_neighbor(&mut rng, 4, 4).unwrap();
        let q = d.get_pos();
        assert!(q.x < 4 && q.y < 4);
        assert_eq!(q.x.abs_diff(p.x) + q.y.abs_diff(p.y), 1);
    }
    assert!(Pos::new(0, 0).get_random_neighbor(&mut rng, 1, 1).is_none());
}

#[test]
fn random_neighbor_respects_the_set() {
    let mut rng = rng_from_seed(12);
    let mut set = CellSet::new(2, 2);
    set.insert(Pos::new(0, 1));
    let p = Pos::new(0, 0);
    for _ in 0..20 {
        let d = p.get_random_neighbor_not_in(&mut rng, &set).unwrap();
        assert_eq!(d.get_pos(), Pos::new(1, 0));
        let d2 = p.get_random_neighbor_in(&mut rng, &set).unwrap();
        assert_eq!(d2.get_pos(), Pos::new(0, 1));
    }
}

#[test]
fn carving_clears_exactly_one_owned_wall() {
    let mut g = Grid::new(2, 1);
    assert_eq!(g.count_cleared(), 0);
    let left = Pos::new(0, 0);
    let right = Pos::new(1, 0);
    // moving right: the wall is owned as the right cell's left wall
    left.make_connection(&Direction::Right(right), &mut g);
    assert_eq!(g.count_cleared(), 1);
    assert!(!g.node_at(right).left);
    assert!(g.node_at(right).up);
    assert!(g.node_at(left).left);
    assert!(g.node_at(left).up);
}

#[test]
fn carving_down_clears_the_lower_cells_up_wall() {
    let mut g = Grid::new(1, 2);
    let top = Pos::new(0, 0);
    let bottom = Pos::new(0, 1);
    top.make_connection(&Direction::Down(bottom), &mut g);
    assert_eq!(g.count_cleared(), 1);
    assert!(!g.node_at(bottom).up);
    assert!(g.node_at(top).up);
}

#[test]
fn cellset_tracks_membership_and_count() {
    let mut s = CellSet::new(3, 2);
    assert_eq!(s.len(), 0);
    assert!(!s.is_full());
    let p = Pos::new(2, 1);
    assert!(!s.contains(p));
    s.insert(p);
    assert!(s.contains(p));
    assert_eq!(s.len(), 1);
    s.insert(p);
    assert_eq!(s.len(), 1);
    s.remove(p);
    assert!(!s.contains(p));
    assert_eq!(s.len(), 0);
    for x in 0..3 {
        for y in 0..2 {
            s.insert(Pos::new(x, y));
        }
    }
    assert!(s.is_full());
    assert!(s.find_absent().is_none());
    s.remove(Pos::new(1, 0));
    let gap = s.find_absent().unwrap();
    assert_eq!(gap, Pos::new(1, 0));
    let members = s.members();
    assert_eq!(members.len(), 5);
    for m in &members {
        assert!(s.contains(*m));
    }
    // each member appears exactly once
    for i in 0..members.len() {
        for j in (i + 1)..members.len() {
            assert_ne!(members[i], members[j]);
        }
    }
}

#[test]
fn algorithm_rotation_visits_every_engine_once() {
    let mut a = Algorithm::DepthFirstSearch;
    let mut seen = vec![a];
    for _ in 0..7 {
        a = a.next();
        assert!(!seen.contains(&a));
        seen.push(a);
    }
    assert_eq!(a.next(), Algorithm::DepthFirstSearch);
}
