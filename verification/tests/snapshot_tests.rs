use road_grid::{Element, Grid, NodeData, SnapshotError, WayData};

fn sample_grid() -> Grid {
    let mut g = Grid::new();
    g.insert(Element::Node(NodeData {
        id: 1,
        lat: 42_300_000_000,
        lon: -83_100_000_000,
        tags: vec![("name".to_string(), "Grand River Höhe".to_string())],
    }));
    g.insert(Element::Node(NodeData {
        id: 2,
        lat: 142_310_000_000,
        lon: -83_110_000_000,
        tags: Vec::new(),
    }));
    g.insert(Element::Way(WayData {
        id: 100,
        tags: vec![
            ("highway".to_string(), "residential".to_string()),
            ("maxspeed".to_string(), "55".to_string()),
        ],
        node_ids: vec![1, 2, 1],
    }));
    g.insert(Element::Way(WayData {
        id: 200,
        tags: vec![("highway".to_string(), "bogus".to_string())],
        node_ids: vec![99],
    }));
    g
}

#[test]
fn round_trip_restores_an_equal_grid() {
    let g = sample_grid();
    let blob = g.snapshot();
    let r = Grid::restore(&blob).unwrap();
    assert_eq!(r.cell_count(), g.cell_count());
    assert_eq!(r.way_count(), g.way_count());
    for id in [1i64, 2] {
        let a = g.find_node(id).unwrap();
        let b = r.find_node(id).unwrap();
        assert_eq!(a.id, b.id);
        assert_eq!(a.lat, b.lat);
        assert_eq!(a.lon, b.lon);
        assert_eq!(a.tags, b.tags);
        assert_eq!(a.way_refs, b.way_refs);
    }
    for id in [100i64, 200] {
        let a = g.find_way(id).unwrap();
        let b = r.find_way(id).unwrap();
        assert_eq!(a.id, b.id);
        assert_eq!(a.tags, b.tags);
        assert_eq!(a.node_ids, b.node_ids);
        assert_eq!(a.road_class, b.road_class);
        assert_eq!(a.max_speed, b.max_speed);
    }
    assert_eq!(r.snapshot(), blob);
}

#[test]
fn round_trip_of_the_empty_grid() {
    let g = Grid::new();
    let blob = g.snapshot();
    let r = Grid::restore(&blob).unwrap();
    assert_eq!(r.cell_count(), 0);
    assert_eq!(r.way_count(), 0);
    assert_eq!(r.snapshot(), blob);
}

#[test]
fn restored_grid_keeps_accepting_elements() {
    let g = sample_grid();
    let blob = g.snapshot();
    let mut r = Grid::restore(&blob).unwrap();
    r.insert(Element::Node(NodeData { id: 99, lat: 0, lon: 0, tags: Vec::new() }));
    assert_eq!(r.find_node(99).unwrap().way_refs, vec![200]);
}

#[test]
fn truncated_blob_is_refused() {
    let g = sample_grid();
    let mut blob = g.snapshot();
    blob.pop();
    assert!(matches!(Grid::restore(&blob), Err(SnapshotError::Corrupt)));
}

#[test]
fn trailing_bytes_are_refused() {
    let g = sample_grid();
    let mut blob = g.snapshot();
    blob.push(0);
    assert!(matches!(Grid::restore(&blob), Err(SnapshotError::Corrupt)));
}

#[test]
fn garbage_is_refused() {
    assert!(matches!(Grid::restore(&Vec::new()), Err(SnapshotError::Corrupt)));
    assert!(matches!(Grid::restore(&vec![1, 2, 3]), Err(SnapshotError::Corrupt)));
    assert!(matches!(Grid::restore(&vec![255; 64]), Err(SnapshotError::Corrupt)));
}

#[test]
fn corrupted_sign_byte_is_refused() {
    let g = sample_grid();
    let mut blob = g.snapshot();
    // the first node record starts after the cell count (8 bytes) and the two
    // cell key fields; its identity sign byte sits at offset 8 + 9 + 9 + 8
    let off = 8 + 9 + 9 + 8;
    blob[off] = 7;
    assert!(Grid::restore(&blob).is_err());
}
