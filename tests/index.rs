use power_grid::{squared_distance, IndexError, IndexPluginGroup, Pos, SpatialIndex, TileGrid};

fn sorted(mut v: Vec<u64>) -> Vec<u64> {
    v.sort();
    v
}

fn ids(hits: &[(u128, u64)]) -> Vec<u64> {
    sorted(hits.iter().map(|h| h.1).collect())
}

fn world() -> (Pos, Pos) {
    (Pos::new(i32::MIN, i32::MIN), Pos::new(i32::MAX, i32::MAX))
}

#[test]
fn insert_twice_is_refused() {
    let mut g = TileGrid::new(10);
    assert_eq!(g.insert(1, Pos::new(3, 4)), Ok(()));
    assert_eq!(g.insert(1, Pos::new(50, 50)), Err(IndexError::AlreadyTracked));
    assert_eq!(g.position(1), Some(Pos::new(3, 4)));
    assert_eq!(g.len(), 1);
}

#[test]
fn remove_and_update_need_a_tracked_entity() {
    let mut g = TileGrid::new(10);
    assert_eq!(g.remove(7), Err(IndexError::NotTracked));
    assert_eq!(g.update(7, Pos::new(1, 1)), Err(IndexError::NotTracked));
    assert_eq!(g.insert(7, Pos::new(1, 1)), Ok(()));
    assert_eq!(g.remove(7), Ok(()));
    assert_eq!(g.position(7), None);
    assert!(!g.contains(7));
}

#[test]
fn world_box_returns_exactly_the_tracked_set() {
    let (lo, hi) = world();
    let mut g = TileGrid::new(10);
    assert!(g.query_aabb(lo, hi).is_empty());
    g.insert(1, Pos::new(0, 0)).unwrap();
    g.insert(2, Pos::new(-25, 40)).unwrap();
    g.insert(3, Pos::new(i32::MAX, i32::MIN)).unwrap();
    assert_eq!(sorted(g.query_aabb(lo, hi)), vec![1, 2, 3]);
    g.update(2, Pos::new(1000, -1000)).unwrap();
    assert_eq!(sorted(g.query_aabb(lo, hi)), vec![1, 2, 3]);
    g.update(1, Pos::new(3, 3)).unwrap();
    assert_eq!(sorted(g.query_aabb(lo, hi)), vec![1, 2, 3]);
    g.remove(3).unwrap();
    assert_eq!(sorted(g.query_aabb(lo, hi)), vec![1, 2]);
    g.insert(3, Pos::new(5, 5)).unwrap();
    assert_eq!(sorted(g.query_aabb(lo, hi)), vec![1, 2, 3]);
}

#[test]
fn box_query_is_exact_containment() {
    let mut g = TileGrid::new(10);
    g.insert(1, Pos::new(0, 0)).unwrap();
    g.insert(2, Pos::new(9, 9)).unwrap();
    g.insert(3, Pos::new(10, 10)).unwrap();
    g.insert(4, Pos::new(-1, 5)).unwrap();
    g.insert(5, Pos::new(5, 11)).unwrap();
    assert_eq!(sorted(g.query_aabb(Pos::new(0, 0), Pos::new(10, 10))), vec![1, 2, 3]);
    assert_eq!(sorted(g.query_aabb(Pos::new(-1, 0), Pos::new(9, 9))), vec![1, 2, 4]);
    assert!(g.query_aabb(Pos::new(1, 1), Pos::new(0, 0)).is_empty());
}

#[test]
fn radius_query_includes_the_boundary() {
    let mut g = TileGrid::new(10);
    g.insert(1, Pos::new(3, 4)).unwrap();
    g.insert(2, Pos::new(4, 4)).unwrap();
    g.insert(3, Pos::new(-5, 0)).unwrap();
    g.insert(4, Pos::new(0, 0)).unwrap();
    let hits = g.query_radius(Pos::new(0, 0), 5);
    assert_eq!(ids(&hits), vec![1, 3, 4]);
    for (d, e) in &hits {
        let expected = match e {
            1 => 25,
            3 => 25,
            4 => 0,
            _ => panic!("unexpected hit"),
        };
        assert_eq!(*d, expected);
    }
}

#[test]
fn radius_query_spans_many_tiles() {
    let mut g = TileGrid::new(1);
    g.insert(1, Pos::new(-30, 0)).unwrap();
    g.insert(2, Pos::new(0, 31)).unwrap();
    g.insert(3, Pos::new(21, 21)).unwrap();
    assert_eq!(ids(&g.query_radius(Pos::new(0, 0), 30)), vec![1, 3]);
}

#[test]
fn zero_radius_and_empty_index() {
    let mut g = TileGrid::new(10);
    assert!(g.query_radius(Pos::new(0, 0), 0).is_empty());
    assert!(g.nearest(Pos::new(0, 0), 3).is_empty());
    g.insert(1, Pos::new(2, 2)).unwrap();
    g.insert(2, Pos::new(2, 3)).unwrap();
    assert_eq!(ids(&g.query_radius(Pos::new(2, 2), 0)), vec![1]);
}

#[test]
fn update_moves_between_tiles_without_ghosts() {
    let mut g = TileGrid::new(10);
    g.insert(1, Pos::new(1, 1)).unwrap();
    g.update(1, Pos::new(2, 2)).unwrap();
    g.update(1, Pos::new(1_000_000, -1_000_000)).unwrap();
    assert!(g.query_radius(Pos::new(0, 0), 100).is_empty());
    let hits = g.query_radius(Pos::new(1_000_000, -1_000_000), 0);
    assert_eq!(hits, vec![(0, 1)]);
    assert_eq!(g.len(), 1);
}

#[test]
fn extreme_coordinates() {
    let mut g = TileGrid::new(7);
    g.insert(1, Pos::new(i32::MIN, i32::MIN)).unwrap();
    g.insert(2, Pos::new(i32::MAX, i32::MAX)).unwrap();
    assert_eq!(ids(&g.query_radius(Pos::new(i32::MIN, i32::MIN), 1)), vec![1]);
    assert_eq!(ids(&g.query_radius(Pos::new(i32::MAX, i32::MAX), u32::MAX)), vec![2]);
    let d = squared_distance(Pos::new(i32::MIN, i32::MIN), Pos::new(i32::MAX, i32::MAX));
    assert_eq!(d, 2 * (u32::MAX as u128) * (u32::MAX as u128));
}

#[test]
fn nearest_orders_by_distance_then_id() {
    let mut g = TileGrid::new(10);
    g.insert(5, Pos::new(1, 0)).unwrap();
    g.insert(3, Pos::new(0, 1)).unwrap();
    g.insert(9, Pos::new(0, 0)).unwrap();
    g.insert(1, Pos::new(40, 40)).unwrap();
    g.insert(2, Pos::new(-1, 0)).unwrap();
    assert_eq!(g.nearest(Pos::new(0, 0), 3), vec![9, 2, 3]);
    assert_eq!(g.nearest(Pos::new(0, 0), 10), vec![9, 2, 3, 5, 1]);
    assert_eq!(g.nearest(Pos::new(0, 0), 0), Vec::<u64>::new());
}

#[test]
fn settings_build_an_index() {
    let s = IndexPluginGroup::new();
    assert_eq!(s.tile_size, 10);
    let g = s.build().unwrap();
    assert_eq!(g.len(), 0);
    assert!(IndexPluginGroup { tile_size: 0 }.build().is_none());
}

#[test]
fn entities_lists_each_once() {
    let mut g = TileGrid::new(3);
    for e in 0..20u64 {
        g.insert(e, Pos::new((e as i32) * 2, -(e as i32))).unwrap();
    }
    assert_eq!(sorted(g.entities()), (0..20).collect::<Vec<u64>>());
}

fn fill<I: SpatialIndex>(index: &mut I) -> Vec<u64> {
    SpatialIndex::insert(index, 1, Pos::new(0, 0)).unwrap();
    SpatialIndex::insert(index, 2, Pos::new(20, 0)).unwrap();
    assert_eq!(SpatialIndex::insert(index, 2, Pos::new(0, 0)), Err(IndexError::AlreadyTracked));
    SpatialIndex::update(index, 2, Pos::new(2, 0)).unwrap();
    SpatialIndex::remove(index, 1).unwrap();
    assert_eq!(SpatialIndex::remove(index, 1), Err(IndexError::NotTracked));
    assert_eq!(SpatialIndex::position(index, 2), Some(Pos::new(2, 0)));
    assert_eq!(SpatialIndex::nearest(index, Pos::new(0, 0), 5), vec![2]);
    let mut hits: Vec<u64> = SpatialIndex::query_radius(index, Pos::new(0, 0), 2).iter().map(|h| h.1).collect();
    hits.extend(SpatialIndex::query_aabb(index, Pos::new(-5, -5), Pos::new(5, 5)));
    hits
}

#[test]
fn the_tile_grid_serves_through_the_facade() {
    let mut g = TileGrid::new(10);
    assert_eq!(fill(&mut g), vec![2, 2]);
}
