use road_grid::Highway;
use road_grid::WayTag;
use road_grid::{cell_coordinate, Element, Grid, NodeData, WayData};

fn tags(pairs: &[(&str, &str)]) -> Vec<(String, String)> {
    pairs.iter().map(|(k, v)| (k.to_string(), v.to_string())).collect()
}

fn node(id: i64, lat: i64, lon: i64) -> Element {
    Element::Node(NodeData { id, lat, lon, tags: Vec::new() })
}

fn way(id: i64, pairs: &[(&str, &str)], node_ids: &[i64]) -> Element {
    Element::Way(WayData { id, tags: tags(pairs), node_ids: node_ids.to_vec() })
}

#[test]
fn cell_coordinate_is_deterministic() {
    assert_eq!(cell_coordinate(42_300_000_000, -83_100_000_000), (0, 0));
    assert_eq!(
        cell_coordinate(42_300_000_000, -83_100_000_000),
        cell_coordinate(42_300_000_000, -83_100_000_000)
    );
}

#[test]
fn cell_coordinate_truncates_toward_zero() {
    assert_eq!(cell_coordinate(250_000_000_000, -250_000_000_000), (2, -2));
    assert_eq!(cell_coordinate(-150_000_000_000, 150_000_000_000), (-1, 1));
    assert_eq!(cell_coordinate(0, 0), (0, 0));
    assert_eq!(cell_coordinate(99_999_999_999, -99_999_999_999), (0, 0));
    assert_eq!(cell_coordinate(100_000_000_000, -100_000_000_000), (1, -1));
}

#[test]
fn equal_quotients_share_a_cell() {
    let mut g = Grid::new();
    g.insert(node(1, 42_300_000_000, -83_100_000_000));
    g.insert(node(2, 42_310_000_000, -83_110_000_000));
    assert_eq!(g.cell_count(), 1);
}

#[test]
fn differing_quotients_never_collide() {
    let mut g = Grid::new();
    g.insert(node(1, 42_300_000_000, -83_100_000_000));
    g.insert(node(2, 142_300_000_000, -83_100_000_000));
    assert_eq!(g.cell_count(), 2);
}

#[test]
fn reinserting_a_node_leaves_one_entry() {
    let mut g = Grid::new();
    g.insert(node(1, 42_300_000_000, -83_100_000_000));
    g.insert(node(1, 42_300_000_000, -83_100_000_000));
    assert_eq!(g.cell_count(), 1);
    assert_eq!(g.cells[0].nodes.len(), 1);
    assert_eq!(g.cells[0].nodes[0].id, 1);
}

#[test]
fn reinserting_under_a_new_coordinate_moves_the_node() {
    let mut g = Grid::new();
    g.insert(node(1, 42_300_000_000, -83_100_000_000));
    g.insert(node(1, 142_300_000_000, -83_100_000_000));
    let occupied: usize = g.cells.iter().filter(|c| !c.nodes.is_empty()).count();
    assert_eq!(occupied, 1);
    let n = g.find_node(1).unwrap();
    assert_eq!(n.lat, 142_300_000_000);
}

#[test]
fn other_elements_are_ignored() {
    let mut g = Grid::new();
    g.insert(Element::Other);
    assert_eq!(g.cell_count(), 0);
    assert_eq!(g.way_count(), 0);
}

#[test]
fn classification_recognizes_motorway() {
    let mut g = Grid::new();
    g.insert(way(7, &[("highway", "motorway")], &[]));
    let w = g.find_way(7).unwrap();
    assert_eq!(w.road_class, Some(road_grid::Highway::Motorway));
}

#[test]
fn classification_rejects_bogus_values() {
    let mut g = Grid::new();
    g.insert(way(7, &[("highway", "bogus_value")], &[]));
    assert_eq!(g.find_way(7).unwrap().road_class, None);
    g.insert(way(8, &[("name", "Main Street")], &[]));
    assert_eq!(g.find_way(8).unwrap().road_class, None);
}

#[test]
fn repeated_highway_tags_keep_the_last_recognized() {
    let mut g = Grid::new();
    g.insert(way(7, &[("highway", "primary"), ("highway", "residential")], &[]));
    assert_eq!(g.find_way(7).unwrap().road_class, Some(road_grid::Highway::Residential));
    g.insert(way(8, &[("highway", "primary"), ("highway", "bogus")], &[]));
    assert_eq!(g.find_way(8).unwrap().road_class, Some(road_grid::Highway::Primary));
}

#[test]
fn every_class_name_is_recognized() {
    let table = [
        ("motorway", Highway::Motorway),
        ("trunk", Highway::Trunk),
        ("primary", Highway::Primary),
        ("secondary", Highway::Secondary),
        ("tertiary", Highway::Tertiary),
        ("unclassified", Highway::Unclassified),
        ("residential", Highway::Residential),
        ("motorway_link", Highway::MotorwayLink),
        ("trunk_link", Highway::TrunkLink),
        ("primary_link", Highway::PrimaryLink),
        ("secondary_link", Highway::SecondaryLink),
        ("tertiary_link", Highway::TertiaryLink),
        ("living_street", Highway::LivingStreet),
        ("road", Highway::Road),
    ];
    for (name, expect) in table {
        assert_eq!(road_grid::Highway::classify(name), Some(expect));
    }
    assert_eq!(road_grid::Highway::classify(""), None);
    assert_eq!(road_grid::Highway::classify("Motorway"), None);
}

#[test]
fn way_tag_parse_reads_highway_keys_only() {
    assert_eq!(WayTag::parse("highway", "trunk"), Some(WayTag::Highway(Highway::Trunk)));
    assert_eq!(WayTag::parse("highway", "bogus"), None);
    assert_eq!(WayTag::parse("name", "trunk"), None);
}

#[test]
fn priors_follow_the_fixed_table() {
    assert_eq!(Highway::Motorway.speed_tag_prior_permille(), 987);
    assert_eq!(Highway::Trunk.speed_tag_prior_permille(), 825);
    assert_eq!(Highway::Primary.speed_tag_prior_permille(), 778);
    assert_eq!(Highway::Secondary.speed_tag_prior_permille(), 782);
    assert_eq!(Highway::Tertiary.speed_tag_prior_permille(), 460);
    assert_eq!(Highway::Unclassified.speed_tag_prior_permille(), 90);
    assert_eq!(Highway::Residential.speed_tag_prior_permille(), 40);
    assert_eq!(Highway::LivingStreet.speed_tag_prior_permille(), 70);
    assert_eq!(Highway::MotorwayLink.speed_tag_prior_permille(), 987);
    assert_eq!(Highway::Road.speed_tag_prior_permille(), 0);
}

#[test]
fn numeric_max_speed_is_parsed() {
    let mut g = Grid::new();
    g.insert(way(7, &[("maxspeed", "55")], &[]));
    assert_eq!(g.find_way(7).unwrap().max_speed, Some(55));
    g.insert(way(8, &[("maxspeed", "0")], &[]));
    assert_eq!(g.find_way(8).unwrap().max_speed, Some(0));
    g.insert(way(9, &[("maxspeed", "255")], &[]));
    assert_eq!(g.find_way(9).unwrap().max_speed, Some(255));
}

#[test]
fn non_numeric_max_speed_is_discarded() {
    let mut g = Grid::new();
    g.insert(way(7, &[("maxspeed", "national")], &[]));
    assert_eq!(g.find_way(7).unwrap().max_speed, None);
    g.insert(way(8, &[("maxspeed", "256")], &[]));
    assert_eq!(g.find_way(8).unwrap().max_speed, None);
    g.insert(way(9, &[("maxspeed", "")], &[]));
    assert_eq!(g.find_way(9).unwrap().max_speed, None);
    g.insert(way(10, &[("maxspeed", "5 mph")], &[]));
    assert_eq!(g.find_way(10).unwrap().max_speed, None);
}

#[test]
fn parse_speed_direct_values() {
    assert_eq!(road_grid::speed::parse_max_speed("55"), Some(55));
    assert_eq!(road_grid::speed::parse_max_speed("007"), Some(7));
    assert_eq!(road_grid::speed::parse_max_speed("999999999999999999999"), None);
    assert_eq!(road_grid::speed::parse_max_speed("-5"), None);
}

#[test]
fn back_references_resolve_nodes_first() {
    let mut g = Grid::new();
    g.insert(node(1, 42_300_000_000, -83_100_000_000));
    g.insert(node(2, 42_310_000_000, -83_110_000_000));
    g.insert(way(100, &[("highway", "residential")], &[1, 2]));
    assert_eq!(g.find_node(1).unwrap().way_refs, vec![100]);
    assert_eq!(g.find_node(2).unwrap().way_refs, vec![100]);
}

#[test]
fn back_references_resolve_ways_first() {
    let mut g = Grid::new();
    g.insert(way(100, &[], &[1, 2]));
    g.insert(node(1, 42_300_000_000, -83_100_000_000));
    g.insert(node(2, 42_310_000_000, -83_110_000_000));
    assert_eq!(g.find_node(1).unwrap().way_refs, vec![100]);
    assert_eq!(g.find_node(2).unwrap().way_refs, vec![100]);
}

#[test]
fn duplicate_references_yield_one_back_reference() {
    let mut g = Grid::new();
    g.insert(node(1, 42_300_000_000, -83_100_000_000));
    g.insert(way(100, &[], &[1, 1, 1]));
    assert_eq!(g.find_node(1).unwrap().way_refs, vec![100]);
}

#[test]
fn dangling_references_are_kept_without_failing() {
    let mut g = Grid::new();
    g.insert(way(200, &[], &[99]));
    let w = g.find_way(200).unwrap();
    assert_eq!(w.node_ids, vec![99]);
    assert!(g.find_node(99).is_none());
    g.insert(node(99, 1_000_000_000, 2_000_000_000));
    assert_eq!(g.find_node(99).unwrap().way_refs, vec![200]);
}

#[test]
fn overwriting_a_way_rewrites_back_references() {
    let mut g = Grid::new();
    g.insert(node(1, 42_300_000_000, -83_100_000_000));
    g.insert(node(2, 42_310_000_000, -83_110_000_000));
    g.insert(way(100, &[], &[1]));
    g.insert(way(100, &[], &[2]));
    assert_eq!(g.way_count(), 1);
    assert!(g.find_node(1).unwrap().way_refs.is_empty());
    assert_eq!(g.find_node(2).unwrap().way_refs, vec![100]);
}

#[test]
fn end_to_end_scenario() {
    let mut g = Grid::new();
    g.insert(node(1, 42_300_000_000, -83_100_000_000));
    g.insert(node(2, 42_310_000_000, -83_110_000_000));
    g.insert(way(100, &[("highway", "residential")], &[1, 2]));
    assert_eq!(g.cell_count(), 1);
    let w = g.find_way(100).unwrap();
    assert_eq!(w.road_class, Some(road_grid::Highway::Residential));
    assert_eq!(w.max_speed, None);
    assert_eq!(g.find_node(1).unwrap().way_refs, vec![100]);
    assert_eq!(g.find_node(2).unwrap().way_refs, vec![100]);
}

#[test]
fn dangling_ways_are_reported() {
    let mut g = Grid::new();
    g.insert(node(1, 42_300_000_000, -83_100_000_000));
    g.insert(way(100, &[], &[1]));
    g.insert(way(200, &[], &[1, 99]));
    g.insert(way(300, &[], &[98]));
    assert_eq!(g.dangling_way_ids(), vec![200, 300]);
    g.insert(node(99, 0, 0));
    assert_eq!(g.dangling_way_ids(), vec![300]);
}

#[test]
fn degenerate_ways_are_reportable() {
    let mut g = Grid::new();
    g.insert(way(100, &[], &[1]));
    g.insert(way(200, &[], &[1, 2]));
    assert!(g.find_way(100).unwrap().is_degenerate());
    assert!(!g.find_way(200).unwrap().is_degenerate());
}

#[test]
fn node_from_data_starts_without_back_references() {
    let n = road_grid::Node::from_data(NodeData {
        id: 5,
        lat: 1_000_000_000,
        lon: -2_000_000_000,
        tags: vec![("name".to_string(), "corner".to_string())],
    });
    assert_eq!(n.id, 5);
    assert_eq!(n.lat, 1_000_000_000);
    assert_eq!(n.lon, -2_000_000_000);
    assert_eq!(n.tags.len(), 1);
    assert!(n.way_refs.is_empty());
}
