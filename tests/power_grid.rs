use power_grid::{EnergyPluginGroup, GridError, Pos, PowerGrid, TileGrid};

fn settings(max_distance: u32, max_edges: usize) -> EnergyPluginGroup {
    EnergyPluginGroup { max_distance, max_edges, transfer_rate: 1_000_000 }
}

fn edge_set(g: &PowerGrid) -> Vec<(u64, u64)> {
    let mut v: Vec<(u64, u64)> = g.edges().iter().map(|e| (e.0, e.1)).collect();
    v.sort();
    v
}

fn index_of(points: &[(u64, i32, i32)]) -> TileGrid {
    let mut idx = TileGrid::new(10);
    for (e, x, y) in points {
        idx.insert(*e, Pos::new(*x, *y)).unwrap();
    }
    idx
}

fn check_bounds(g: &PowerGrid, idx: &TileGrid) {
    let s = g.settings();
    for n in g.nodes() {
        assert!(g.degree(n) <= s.max_edges);
    }
    for (a, b, w) in g.edges() {
        assert!(a < b);
        assert_eq!(w, s.transfer_rate);
        let d = power_grid::squared_distance(idx.position(a).unwrap(), idx.position(b).unwrap());
        assert!(d <= (s.max_distance as u128) * (s.max_distance as u128));
    }
}

#[test]
fn five_in_a_row_form_a_path() {
    let idx = index_of(&[(1, 0, 0), (2, 10, 0), (3, 20, 0), (4, 30, 0), (5, 40, 0)]);
    let mut g = PowerGrid::new(settings(15, 4));
    assert_eq!(g.update_power_grid(&idx, &vec![], &vec![1, 2, 3, 4, 5], &vec![]), Ok(()));
    assert_eq!(edge_set(&g), vec![(1, 2), (2, 3), (3, 4), (4, 5)]);
    assert_eq!(g.degree(1), 1);
    assert_eq!(g.degree(3), 2);
    check_bounds(&g, &idx);
}

#[test]
fn tight_cluster_evicts_longer_edges() {
    let pts = [(1, 0, 0), (2, 10, 0), (3, 0, 10), (4, -10, 0), (5, 0, -10), (6, 7, 7)];
    let mut idx = TileGrid::new(10);
    let mut g = PowerGrid::new(settings(30, 2));
    for (e, x, y) in pts {
        idx.insert(e, Pos::new(x, y)).unwrap();
        g.update_power_grid(&idx, &vec![], &vec![e], &vec![]).unwrap();
        check_bounds(&g, &idx);
        if e == 5 {
            assert_eq!(edge_set(&g), vec![(1, 2), (1, 3), (2, 3), (4, 5)]);
        }
    }
    // 6 sits closer to 2 and 3 than they sit to each other: their edge goes.
    assert_eq!(edge_set(&g), vec![(1, 2), (1, 3), (2, 6), (3, 6), (4, 5)]);
    assert!(!g.has_edge(2, 3));
    for n in 1..=6 {
        assert!(g.degree(n) <= 2);
    }
}

#[test]
fn removing_a_full_node_frees_its_neighbors() {
    let mut idx = index_of(&[(1, 0, 0), (2, 10, 0), (3, -10, 0), (4, 0, 25)]);
    let mut g = PowerGrid::new(settings(30, 2));
    g.update_power_grid(&idx, &vec![], &vec![1, 2, 3, 4], &vec![]).unwrap();
    assert_eq!(edge_set(&g), vec![(1, 2), (1, 3), (2, 3)]);
    assert_eq!(g.degree(1), 2);
    idx.remove(1).unwrap();
    g.update_power_grid(&idx, &vec![1], &vec![], &vec![]).unwrap();
    assert_eq!(edge_set(&g), vec![(2, 3)]);
    assert!(!g.contains_node(1));
    assert_eq!(g.degree(2), 1);
    assert_eq!(g.degree(3), 1);
    g.update_power_grid(&idx, &vec![], &vec![], &vec![2]).unwrap();
    assert_eq!(edge_set(&g), vec![(2, 3), (2, 4)]);
    check_bounds(&g, &idx);
}

#[test]
fn a_quiet_pass_changes_nothing() {
    let idx = index_of(&[(1, 0, 0), (2, 10, 0), (3, 0, 10), (4, 7, 7), (5, 20, 20)]);
    let mut g = PowerGrid::new(settings(15, 2));
    g.update_power_grid(&idx, &vec![], &vec![1, 2, 3, 4, 5], &vec![]).unwrap();
    let before = edge_set(&g);
    g.update_power_grid(&idx, &vec![], &vec![], &vec![]).unwrap();
    assert_eq!(edge_set(&g), before);
    g.update_power_grid(&idx, &vec![], &vec![], &vec![]).unwrap();
    assert_eq!(edge_set(&g), before);
}

#[test]
fn two_runs_give_the_same_graph() {
    let pts = [(4, 3, 3), (1, 0, 0), (9, 5, 0), (2, 0, 5), (7, -5, 0), (3, 0, -5), (8, 4, -4)];
    let run = || {
        let mut idx = TileGrid::new(4);
        let mut g = PowerGrid::new(settings(8, 3));
        for (e, x, y) in pts {
            idx.insert(e, Pos::new(x, y)).unwrap();
        }
        g.update_power_grid(&idx, &vec![], &vec![4, 1, 9, 2], &vec![]).unwrap();
        g.update_power_grid(&idx, &vec![], &vec![7, 3, 8], &vec![]).unwrap();
        idx.update(9, Pos::new(1, 1)).unwrap();
        g.update_power_grid(&idx, &vec![2], &vec![], &vec![9]).unwrap();
        check_bounds(&g, &idx);
        edge_set(&g)
    };
    assert_eq!(run(), run());
}

#[test]
fn unknown_entity_is_inconsistent() {
    let idx = index_of(&[(1, 0, 0), (2, 5, 0)]);
    let mut g = PowerGrid::new(settings(10, 4));
    g.update_power_grid(&idx, &vec![], &vec![1, 2], &vec![]).unwrap();
    let before = edge_set(&g);
    assert_eq!(
        g.update_power_grid(&idx, &vec![1], &vec![], &vec![3]),
        Err(GridError::InconsistentState)
    );
    assert_eq!(edge_set(&g), before);
    assert!(g.contains_node(1));
    assert_eq!(
        g.update_power_grid(&idx, &vec![], &vec![3], &vec![]),
        Err(GridError::InconsistentState)
    );
}

#[test]
fn moving_out_of_range_drops_the_edge() {
    let mut idx = index_of(&[(1, 0, 0), (2, 5, 0)]);
    let mut g = PowerGrid::new(settings(10, 4));
    g.update_power_grid(&idx, &vec![], &vec![1, 2], &vec![]).unwrap();
    assert!(g.has_edge(2, 1));
    idx.update(2, Pos::new(50, 0)).unwrap();
    g.update_power_grid(&idx, &vec![], &vec![], &vec![2]).unwrap();
    assert!(!g.has_edge(1, 2));
    assert_eq!(g.position(2), Some(Pos::new(50, 0)));
}

#[test]
fn moved_before_added_counts_as_added() {
    let idx = index_of(&[(1, 0, 0), (2, 5, 0)]);
    let mut g = PowerGrid::new(settings(10, 4));
    g.update_power_grid(&idx, &vec![], &vec![], &vec![1, 2]).unwrap();
    assert!(g.contains_node(1) && g.contains_node(2));
    assert_eq!(edge_set(&g), vec![(1, 2)]);
}

#[test]
fn boundary_distance_links_and_full_node_keeps_equal_edges() {
    // 2 and 3 are exactly at the maximum distance from 1.
    let idx = index_of(&[(1, 0, 0), (2, 10, 0), (3, -10, 0), (4, 0, 10)]);
    let mut g = PowerGrid::new(settings(10, 2));
    g.update_power_grid(&idx, &vec![], &vec![1, 2, 3], &vec![]).unwrap();
    assert_eq!(edge_set(&g), vec![(1, 2), (1, 3)]);
    // 4 is as far from 1 as 1's longest edge: no eviction, and 2 and 3 are
    // out of its reach.
    g.update_power_grid(&idx, &vec![], &vec![4], &vec![]).unwrap();
    assert_eq!(edge_set(&g), vec![(1, 2), (1, 3)]);
    assert_eq!(g.degree(4), 0);
    check_bounds(&g, &idx);
}

#[test]
fn farthest_neighbor_is_reconsidered() {
    let idx = index_of(&[(1, 0, 0), (2, 3, 0), (3, 0, 8), (4, -8, 0)]);
    let mut g = PowerGrid::new(settings(10, 4));
    g.update_power_grid(&idx, &vec![], &vec![1, 2, 3, 4], &vec![]).unwrap();
    assert_eq!(g.reconsider_edges(1), Some(4));
    let lonely = index_of(&[(7, 0, 0)]);
    let mut h = PowerGrid::new(settings(10, 4));
    h.update_power_grid(&lonely, &vec![], &vec![7], &vec![]).unwrap();
    assert_eq!(h.reconsider_edges(7), None);
}

#[test]
fn default_settings() {
    let s = EnergyPluginGroup::new();
    assert_eq!(s.max_distance, 10);
    assert_eq!(s.max_edges, 4);
    assert_eq!(s.transfer_rate, 1_000_000);
    let g = PowerGrid::new(s);
    assert!(g.nodes().is_empty());
    assert!(g.edges().is_empty());
}

#[test]
fn edge_lengths_and_removal_order() {
    let idx = index_of(&[(1, 0, 0), (2, 3, 4), (3, 6, 8), (4, 0, 6)]);
    let mut a = PowerGrid::new(settings(10, 4));
    let mut b = PowerGrid::new(settings(10, 4));
    a.update_power_grid(&idx, &vec![], &vec![1, 2, 3, 4], &vec![]).unwrap();
    b.update_power_grid(&idx, &vec![], &vec![1, 2, 3, 4], &vec![]).unwrap();
    assert_eq!(a.edge_length(1, 2), Some(25));
    assert_eq!(a.edge_length(2, 1), Some(25));
    assert_eq!(a.edge_length(1, 3), Some(100));
    a.update_power_grid(&idx, &vec![4, 1], &vec![], &vec![]).unwrap();
    b.update_power_grid(&idx, &vec![1, 4], &vec![], &vec![]).unwrap();
    assert_eq!(edge_set(&a), edge_set(&b));
    assert_eq!(edge_set(&a), vec![(2, 3)]);
    assert_eq!(a.edge_length(1, 2), None);
}
