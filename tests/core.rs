use nobonk::{
    allows_pair, motion_plan, pair_plan, BodyRef, CellGrid, EventBuffer, FrameId, KeyIndex, LayerMask,
    PairPlan, TileGrid, TileMapRef, TileRef,
};

#[test]
fn layer_mask_simple_sets_no_exclusion() {
    let m = LayerMask::simple(4, 6);
    assert_eq!(m.layer, 4);
    assert_eq!(m.collides_with, 6);
    assert_eq!(m.exclude, 0);
}

#[test]
fn layer_mask_allows_and_exclude() {
    let a = LayerMask::simple(1, 2);
    let b = LayerMask::simple(2, 1);
    assert!(a.allows(b));
    assert!(b.allows(a));
    let blocked = LayerMask { layer: 1, collides_with: 2, exclude: 2 };
    assert!(!blocked.allows(b));
    let c = LayerMask::simple(4, 0);
    assert!(!a.allows(c));
}

#[test]
fn consent_mutual_versus_either_side() {
    let a = LayerMask { layer: 1, collides_with: 2, exclude: 0 };
    let b = LayerMask { layer: 2, collides_with: 0, exclude: 0 };
    assert!(a.allows(b));
    assert!(!b.allows(a));
    assert!(!allows_pair(a, b, true));
    assert!(allows_pair(a, b, false));
    assert!(allows_pair(b, a, false));
}

#[test]
fn mask_disagreeing_pair_is_skipped() {
    let a = LayerMask { layer: 1, collides_with: 2, exclude: 0 };
    let b = LayerMask { layer: 2, collides_with: 0, exclude: 0 };
    assert_eq!(pair_plan(a, b, true, true, true, true), PairPlan::Skip);
    assert_eq!(pair_plan(b, a, true, false, true, true), PairPlan::Skip);
}

#[test]
fn pair_plan_follows_motion_and_switches() {
    let m = LayerMask::simple(1, 1);
    assert_eq!(pair_plan(m, m, true, true, true, true), PairPlan::SweepElseOverlap);
    assert_eq!(pair_plan(m, m, true, true, true, false), PairPlan::Sweep);
    assert_eq!(pair_plan(m, m, true, true, false, true), PairPlan::Overlap);
    assert_eq!(pair_plan(m, m, true, false, true, true), PairPlan::Overlap);
    assert_eq!(pair_plan(m, m, true, false, true, false), PairPlan::Skip);
    assert_eq!(pair_plan(m, m, false, true, false, false), PairPlan::Skip);
}

#[test]
fn grid_coverage_of_box_straddling_origin() {
    // A box of half-extent 0.5 at the origin with unit cells covers
    // cells (-1, -1) through (0, 0).
    let g = CellGrid::build(&vec![(-1, -1, 0, 0)]);
    assert_eq!(g.len(), 4);
    for (cx, cy) in [(-1, -1), (-1, 0), (0, -1), (0, 0)] {
        let v = g.get(cx, cy).expect("covered cell");
        assert_eq!(v, &vec![0u32]);
    }
    assert!(g.get(1, 0).is_none());
    assert!(g.get(-2, -1).is_none());
}

#[test]
fn grid_cells_in_row_major_first_occupation_order() {
    let g = CellGrid::build(&vec![(0, 0, 1, 1), (1, 1, 2, 1)]);
    let keys: Vec<(i32, i32)> = (0..g.len()).map(|i| g.cell(i).0).collect();
    assert_eq!(keys, vec![(0, 0), (1, 0), (0, 1), (1, 1), (2, 1)]);
    assert_eq!(g.get(1, 1).unwrap(), &vec![0u32, 1]);
    assert_eq!(g.get(2, 1).unwrap(), &vec![1u32]);
}

#[test]
fn insert_range_appends_entry_to_existing_cells() {
    let mut g = CellGrid::new();
    g.insert_range(3, 0, 0, 0, 0);
    g.insert_range(5, 0, 0, 1, 0);
    assert_eq!(g.len(), 2);
    assert_eq!(g.get(0, 0).unwrap(), &vec![3u32, 5]);
    assert_eq!(g.get(1, 0).unwrap(), &vec![5u32]);
    g.clear();
    assert_eq!(g.len(), 0);
}

#[test]
fn empty_range_inserts_nothing() {
    let mut g = CellGrid::new();
    g.insert_range(0, 2, 0, 1, 0);
    assert_eq!(g.len(), 0);
}

#[test]
fn unique_pairs_deduplicate_across_cells() {
    // Entries 0 and 1 share two cells; entry 2 shares one cell with 1.
    let g = CellGrid::build(&vec![(0, 0, 1, 0), (0, 0, 2, 0), (2, 0, 2, 0)]);
    let pairs = g.unique_pairs();
    assert_eq!(pairs, vec![(0, 1), (1, 2)]);
    let stats = g.stats(3);
    assert_eq!(stats.entries, 3);
    assert_eq!(stats.cells, 3);
    assert_eq!(stats.candidate_pairs, 3);
    assert_eq!(stats.unique_pairs, 2);
}

#[test]
fn candidate_pairs_count_per_cell() {
    // Four entries in one cell: 4 * 3 / 2 = 6 pairs.
    let g = CellGrid::build(&vec![(0, 0, 0, 0); 4]);
    let stats = g.stats(4);
    assert_eq!(stats.candidate_pairs, 6);
    assert_eq!(stats.unique_pairs, 6);
    assert_eq!(g.unique_pairs()[0], (0, 1));
}

#[test]
fn empty_frame_has_empty_grid_and_no_pairs() {
    let g = CellGrid::build(&Vec::new());
    assert_eq!(g.len(), 0);
    assert!(g.unique_pairs().is_empty());
    let stats = g.stats(0);
    assert_eq!(stats.cells, 0);
    assert_eq!(stats.candidate_pairs, 0);
    assert_eq!(stats.unique_pairs, 0);
    let mut events: EventBuffer<u32> = EventBuffer::new(8);
    assert!(events.drain().is_empty());
}

#[test]
fn event_buffer_drops_beyond_cap() {
    let mut buf: EventBuffer<u32> = EventBuffer::new(2);
    assert!(buf.push(10));
    assert!(!buf.is_full());
    assert!(buf.push(20));
    assert!(buf.is_full());
    assert!(!buf.push(30));
    assert_eq!(buf.len(), 2);
    assert_eq!(buf.drain(), vec![10, 20]);
    assert_eq!(buf.len(), 0);
    assert!(buf.push(40));
    buf.clear();
    assert_eq!(buf.len(), 0);
}

#[test]
fn event_buffer_with_zero_cap_keeps_nothing() {
    let mut buf: EventBuffer<u32> = EventBuffer::new(0);
    assert!(buf.is_full());
    assert!(!buf.push(1));
    assert!(buf.drain().is_empty());
}

#[test]
fn tile_at_indexes_row_major() {
    let t = TileGrid::new(3, 2, &[0, 0, 0, 0, 0, 1]);
    assert_eq!(t.width(), 3);
    assert_eq!(t.height(), 2);
    assert_eq!(t.tile_at(0, 0), Some(0));
    assert_eq!(t.tile_at(2, 1), Some(5));
    assert_eq!(t.tile_at(1, 1), Some(4));
    assert_eq!(t.tile_at(3, 0), None);
    assert_eq!(t.tile_at(0, 2), None);
    assert_eq!(t.tile_at(-1, 0), None);
    assert!(t.is_solid(2, 1));
    assert!(!t.is_solid(1, 1));
    assert!(!t.is_solid(5, 5));
}

#[test]
fn update_tiles_writes_rectangle() {
    let mut t = TileGrid::new(4, 4, &[0u8; 16]);
    t.update_tiles(1, 1, 2, 2, &[1, 2, 3, 4]);
    assert_eq!(t.tile_at(1, 1), Some(5));
    assert!(t.is_solid(1, 1));
    assert!(t.is_solid(2, 1));
    assert!(t.is_solid(1, 2));
    assert!(t.is_solid(2, 2));
    assert!(!t.is_solid(0, 0));
    assert!(!t.is_solid(3, 1));
    assert!(!t.is_solid(1, 3));
}

#[test]
fn update_tiles_clips_to_map() {
    let mut t = TileGrid::new(3, 3, &[0u8; 9]);
    t.update_tiles(2, 2, 2, 2, &[7, 7, 7, 7]);
    assert!(t.is_solid(2, 2));
    assert_eq!(t.solid_cells_in(0, 0, 5, 5), vec![(2, 2)]);
    t.update_tiles(5, 0, 1, 1, &[1]);
    assert_eq!(t.solid_cells_in(0, 0, 5, 5), vec![(2, 2)]);
    t.update_tiles(2, 2, 1, 1, &[0]);
    assert!(t.solid_cells_in(-10, -10, 10, 10).is_empty());
}

#[test]
fn solid_cells_in_range_row_major() {
    let mut solids = vec![0u8; 16 * 16];
    solids[5 * 16 + 5] = 1;
    solids[5 * 16 + 7] = 1;
    solids[2 * 16 + 9] = 1;
    let t = TileGrid::new(16, 16, &solids);
    assert_eq!(t.solid_cells_in(0, 0, 15, 15), vec![(9, 2), (5, 5), (7, 5)]);
    assert_eq!(t.solid_cells_in(6, 0, 8, 15), vec![(7, 5)]);
    assert_eq!(t.solid_cells_in(4, 4, 4, 4), Vec::<(u32, u32)>::new());
    assert_eq!(t.solid_cells_in(3, 3, 2, 2), Vec::<(u32, u32)>::new());
}

#[test]
fn motion_plan_ignores_masks() {
    assert_eq!(motion_plan(true, true, true), PairPlan::SweepElseOverlap);
    assert_eq!(motion_plan(true, true, false), PairPlan::Sweep);
    assert_eq!(motion_plan(false, true, true), PairPlan::Overlap);
    assert_eq!(motion_plan(false, false, false), PairPlan::Skip);
}

#[test]
fn key_index_maps_keys_to_frame_ids() {
    let mut keys = KeyIndex::new();
    assert!(keys.insert(11, FrameId(0)));
    assert!(keys.insert(22, FrameId(1)));
    assert_eq!(keys.get(11), Some(FrameId(0)));
    assert_eq!(keys.get(22), Some(FrameId(1)));
    assert_eq!(keys.get(33), None);
    assert!(!keys.insert(11, FrameId(2)));
    assert_eq!(keys.get(11), Some(FrameId(2)));
    keys.clear();
    assert_eq!(keys.get(22), None);
}

#[test]
fn tile_ref_names_map_and_cell() {
    let t = TileRef::new(TileMapRef(3), 5, 7);
    assert_eq!(t.map, TileMapRef(3));
    assert_eq!(t.cell_xy.x, 5);
    assert_eq!(t.cell_xy.y, 7);
    assert_eq!(BodyRef::Tile(t), BodyRef::Tile(TileRef::new(TileMapRef(3), 5, 7)));
    assert_ne!(BodyRef::Tile(t), BodyRef::Collider(FrameId(5)));
}
