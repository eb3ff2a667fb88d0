use pathing::{distance, DS2Map, GridPos};

fn map_of(cells: Vec<GridPos>) -> DS2Map {
    DS2Map::new().with_objects(cells).precomputed()
}

fn assert_clear_steps(map: &DS2Map, path: &[GridPos]) {
    for w in path.windows(2) {
        assert_eq!(map.compute_visibility(w[0], w[1]), None, "step {:?} -> {:?}", w[0], w[1]);
    }
}

#[test]
fn distance_exact_values() {
    assert_eq!(distance((0, 0), (0, 0)), 0);
    assert_eq!(distance((0, 0), (3, 4)), 50);
    assert_eq!(distance((0, 0), (1, 1)), 14);
    assert_eq!(distance((-5, -5), (1, -1)), 72);
    assert_eq!(distance((2, 7), (-1, 3)), 50);
    assert_eq!(
        distance((-100_000_000, -100_000_000), (100_000_000, 100_000_000)),
        2_828_427_124
    );
}

#[test]
fn distance_is_symmetric_on_examples() {
    assert_eq!(distance((3, -8), (-2, 5)), distance((-2, 5), (3, -8)));
}

#[test]
fn empty_map_straight_path() {
    let map = map_of(vec![]);
    let path = map.find_path((-48, -48), (48, 48));
    assert_eq!(path, Some(vec![(-48, -48), (48, 48)]));
}

#[test]
fn same_endpoints_give_single_vertex() {
    let map = map_of(vec![(0, 0)]);
    assert_eq!(map.find_path((3, 3), (3, 3)), Some(vec![(3, 3)]));
}

#[test]
fn single_blocked_cell_on_diagonal() {
    let map = map_of(vec![(0, 0)]);
    let path = map.find_path((-5, -5), (5, 5)).expect("a path");
    assert_eq!(path.len(), 3);
    assert_eq!(path[0], (-5, -5));
    assert_eq!(path[2], (5, 5));
    assert!(path[1] == (-1, 1) || path[1] == (1, -1), "bend at {:?}", path[1]);
    assert_clear_steps(&map, &path);
}

#[test]
fn vertical_wall_with_gap() {
    let cells: Vec<GridPos> = (-5..5).filter(|z| *z != 0).map(|z| (0, z)).collect();
    let map = map_of(cells);
    let path = map.find_path((-3, 0), (3, 0)).expect("a path");
    assert!(path.len() <= 3);
    assert_eq!(path[0], (-3, 0));
    assert_eq!(*path.last().unwrap(), (3, 0));
    assert_clear_steps(&map, &path);
    assert_eq!(path, vec![(-3, 0), (3, 0)]);
}

#[test]
fn endpoint_inside_an_obstacle() {
    let map = map_of(vec![(0, 0), (0, 1), (1, 0), (1, 1)]);
    assert_eq!(map.closest_unblocked_cell((0, 0)), (-1, -1));
    let path = map.find_path((0, 0), (10, 10)).expect("a path");
    assert_eq!(path[0], (-1, -1));
    assert_eq!(*path.last().unwrap(), (10, 10));
    assert_clear_steps(&map, &path);
}

#[test]
fn enclosed_goal_is_unreachable() {
    let mut cells = vec![];
    for x in -1..=1 {
        for z in -1..=1 {
            if (x, z) != (0, 0) {
                cells.push((x, z));
            }
        }
    }
    let map = map_of(cells);
    assert!(!map.is_blocked(0, 0));
    assert_eq!(map.closest_unblocked_cell((0, 0)), (0, 0));
    assert_eq!(map.find_path((10, 10), (0, 0)), None);
}

#[test]
fn goal_inside_solid_block_snaps_to_corner() {
    let mut cells = vec![];
    for x in -1..=1 {
        for z in -1..=1 {
            cells.push((x, z));
        }
    }
    let map = map_of(cells);
    let goal = map.closest_unblocked_cell((0, 0));
    assert!([(-2, -2), (2, -2), (-2, 2), (2, 2)].contains(&goal));
    let path = map.find_path((10, 10), (0, 0)).expect("a path");
    assert_eq!(path[0], (10, 10));
    assert_eq!(*path.last().unwrap(), goal);
    assert_clear_steps(&map, &path);
}

#[test]
fn diagonal_kiss_blocks_sight() {
    let map = map_of(vec![(0, 0), (1, 1)]);
    assert_eq!(map.compute_visibility((2, 0), (-1, 1)), Some((1, 1)));
    assert!(map.compute_visibility((-1, 1), (2, 0)).is_some());
    let path = map.find_path((2, 0), (-1, 1)).expect("a path");
    assert!(path.len() >= 3);
    assert_eq!(path[0], (2, 0));
    assert_eq!(*path.last().unwrap(), (-1, 1));
    assert_clear_steps(&map, &path);
}

#[test]
fn visibility_reports_first_blocked_cell() {
    let map = map_of(vec![(3, 0), (5, 0)]);
    assert_eq!(map.compute_visibility((0, 0), (8, 0)), Some((3, 0)));
    assert_eq!(map.compute_visibility((8, 0), (0, 0)), Some((5, 0)));
    assert_eq!(map.compute_visibility((0, 1), (8, 1)), None);
    assert_eq!(map.compute_visibility((4, 4), (4, 4)), None);
}

#[test]
fn visibility_diagonal_cell_blocks() {
    let map = map_of(vec![(1, 1)]);
    assert_eq!(map.compute_visibility((0, 0), (2, 2)), Some((1, 1)));
}

#[test]
fn visibility_symmetric_between_unblocked_points() {
    let map = map_of(vec![(0, 0), (1, 1), (4, -2), (-3, 2), (2, 3)]);
    let pts: Vec<GridPos> = vec![(-5, -5), (5, 5), (2, 0), (-1, 1), (6, -3), (-4, 4), (3, 7), (0, -6)];
    for a in &pts {
        for b in &pts {
            assert_eq!(
                map.compute_visibility(*a, *b).is_none(),
                map.compute_visibility(*b, *a).is_none(),
                "{:?} {:?}",
                a,
                b
            );
        }
    }
}

#[test]
fn objects_partition_blocked_cells() {
    let map = map_of(vec![(0, 0), (1, 1), (2, 2), (10, 10), (10, 11)]);
    let a = map.object_nodes((0, 0)).unwrap().clone();
    let b = map.object_nodes((2, 2)).unwrap().clone();
    let c = map.object_nodes((10, 10)).unwrap().clone();
    let d = map.object_nodes((10, 11)).unwrap().clone();
    assert_eq!(a, b);
    assert_eq!(c, d);
    assert_ne!(a, c);
    assert_eq!(map.object_nodes((5, 5)), None);
}

#[test]
fn corner_nodes_of_single_cell() {
    let map = map_of(vec![(0, 0)]);
    let mut nodes = map.object_nodes((0, 0)).unwrap().clone();
    nodes.sort();
    assert_eq!(nodes, vec![(-1, -1), (-1, 1), (1, -1), (1, 1)]);
    for n in &nodes {
        assert!(!map.is_blocked(n.0, n.1));
        assert!(map.is_node(n.0, n.1));
    }
    assert!(!map.is_node(0, 0));
    assert!(!map.is_node(0, 1));
}

#[test]
fn corner_nodes_skip_concave_corners() {
    let map = map_of(vec![(0, 0), (1, 0), (0, 1)]);
    let mut nodes = map.object_nodes((0, 0)).unwrap().clone();
    nodes.sort();
    assert_eq!(nodes, vec![(-1, -1), (-1, 2), (1, 2), (2, -1), (2, 1)]);
    assert!(!nodes.contains(&(1, 1)));
}

#[test]
fn precompute_is_deterministic() {
    let cells = vec![(0, 0), (1, 1), (5, 5), (6, 5), (9, 0)];
    let mut reversed = cells.clone();
    reversed.reverse();
    let m1 = map_of(cells.clone());
    let m2 = map_of(reversed);
    for p in &cells {
        for q in &cells {
            let same1 = m1.object_nodes(*p).unwrap() == m1.object_nodes(*q).unwrap();
            let same2 = m2.object_nodes(*p).unwrap() == m2.object_nodes(*q).unwrap();
            assert_eq!(same1, same2);
        }
    }
}

#[test]
fn snap_is_idempotent() {
    let map = map_of(vec![(0, 0), (0, 1), (1, 0), (1, 1), (7, 7)]);
    for p in [(0, 0), (1, 1), (7, 7), (3, 3), (-1, -1)] {
        let s = map.closest_unblocked_cell(p);
        assert_eq!(map.closest_unblocked_cell(s), s);
    }
}

#[test]
fn prune_drops_redundant_vertices() {
    let map = map_of(vec![(0, 0)]);
    let mut path = vec![(-5, -5), (-5, 0), (-5, 5), (5, 5)];
    map.prune(&mut path);
    assert_eq!(path, vec![(-5, -5), (-5, 5), (5, 5)]);
    let mut again = path.clone();
    map.prune(&mut again);
    assert_eq!(again, path);
}

#[test]
fn prune_keeps_needed_vertex() {
    let map = map_of(vec![(0, 0)]);
    let mut path = vec![(-5, -5), (1, -1), (5, 5)];
    map.prune(&mut path);
    assert_eq!(path, vec![(-5, -5), (1, -1), (5, 5)]);
}

#[test]
fn visible_nodes_of_blocking_object() {
    let map = map_of(vec![(0, 0)]);
    let nodes = map.get_visible_object_nodes((-5, -5), (0, 0));
    assert!(nodes.contains(&((-1, -1), distance((-5, -5), (-1, -1)))));
    assert!(!nodes.iter().any(|(n, _)| *n == (1, 1)));
    for (n, d) in &nodes {
        assert_eq!(map.compute_visibility((-5, -5), *n), None);
        assert_eq!(*d, distance((-5, -5), *n));
    }
    assert!(map.get_visible_object_nodes((-5, -5), (3, 3)).is_empty());
}

#[test]
fn compute_object_floods_eight_neighbours() {
    let map = DS2Map::new().with_objects(vec![(0, 0), (1, 1), (2, 1), (5, 5)]);
    let mut cells = map.compute_object((0, 0));
    assert_eq!(cells[0], (0, 0));
    cells.sort();
    assert_eq!(cells, vec![(0, 0), (1, 1), (2, 1)]);
    assert_eq!(map.compute_object((5, 5)), vec![(5, 5)]);
}

#[test]
fn add_and_remove_objects() {
    let mut map = DS2Map::new();
    map.add_objects(vec![(1, 2), (3, 4), (1, 2)]);
    assert!(map.is_blocked(1, 2));
    assert!(map.is_blocked(3, 4));
    assert_eq!(map.blocks().len(), 2);
    map.remove_objects(vec![(1, 2), (9, 9)]);
    assert!(!map.is_blocked(1, 2));
    assert!(map.is_blocked(3, 4));
    assert_eq!(map.blocks(), &vec![(3, 4)]);
}

#[test]
fn bounds_of_blocked_cells() {
    let empty = DS2Map::new();
    assert_eq!(empty.bounds(), (isize::MAX, isize::MIN, isize::MAX, isize::MIN));
    let map = DS2Map::new().with_objects(vec![(-3, 4), (5, -2), (0, 9)]);
    assert_eq!(map.bounds(), (-3, 5, -2, 9));
}

#[test]
fn query_before_precompute_treats_map_as_objectless() {
    let map = DS2Map::new().with_objects(vec![(0, 0)]);
    assert_eq!(map.closest_unblocked_cell((0, 0)), (0, 0));
    assert_eq!(map.object_nodes((0, 0)), None);
    assert_eq!(map.find_path((-5, 0), (5, 0)), None);
}

#[test]
fn prune_rechecks_after_removal() {
    let map = map_of(vec![(0, 0)]);
    let mut path = vec![(0, -2), (1, -1), (0, 2), (3, -2)];
    map.prune(&mut path);
    assert_eq!(path, vec![(0, -2), (3, -2)]);
    let mut again = path.clone();
    map.prune(&mut again);
    assert_eq!(again, path);
}

#[test]
fn pruned_path_has_no_removable_vertex() {
    let map = map_of(vec![(2, -2)]);
    let mut path = vec![(0, 0), (5, 5), (5, -5), (10, 0)];
    map.prune(&mut path);
    assert_eq!(path[0], (0, 0));
    assert_eq!(*path.last().unwrap(), (10, 0));
    for i in 1..path.len().saturating_sub(1) {
        assert!(map.compute_visibility(path[i - 1], path[i + 1]).is_some());
    }
    let mut again = path.clone();
    map.prune(&mut again);
    assert_eq!(again, path);
}

#[test]
fn visibility_not_symmetric_from_blocked_endpoint() {
    let map = map_of(vec![(0, 0)]);
    assert_eq!(map.compute_visibility((0, 0), (1, 0)), None);
    assert_eq!(map.compute_visibility((1, 0), (0, 0)), Some((0, 0)));
}

#[test]
fn cloned_map_answers_alike() {
    let map = map_of(vec![(0, 0), (0, 1), (1, 0), (1, 1), (6, 6)]);
    let copy = map.clone();
    assert_eq!(copy.blocks(), map.blocks());
    assert_eq!(copy.object_nodes((1, 1)), map.object_nodes((1, 1)));
    assert_eq!(copy.closest_unblocked_cell((0, 0)), map.closest_unblocked_cell((0, 0)));
    assert_eq!(copy.find_path((-4, -4), (9, 9)), map.find_path((-4, -4), (9, 9)));
    assert!(copy.is_blocked(6, 6));
}

#[test]
fn visible_nodes_bring_in_hiding_objects() {
    let map = map_of(vec![(0, 0), (-3, -2)]);
    let nodes = map.get_visible_object_nodes((-6, -4), (0, 0));
    let total: usize = [(0, 0), (-3, -2)]
        .iter()
        .map(|c| map.object_nodes(*c).unwrap().len())
        .sum();
    assert!(nodes.len() <= total);
    for (n, d) in &nodes {
        assert_eq!(map.compute_visibility((-6, -4), *n), None);
        assert_eq!(*d, distance((-6, -4), *n));
    }
}
