use world_core::floor_div;
use world_core::tiles::Tiles;
use world_core::utils::format_vector;
use world_core::utils::str_eq;

#[test]
fn floor_div_rounds_toward_negative_infinity() {
    assert_eq!(floor_div(33, 16), 2);
    assert_eq!(floor_div(0, 16), 0);
    assert_eq!(floor_div(15, 16), 0);
    assert_eq!(floor_div(16, 16), 1);
    assert_eq!(floor_div(-1, 16), -1);
    assert_eq!(floor_div(-16, 16), -1);
    assert_eq!(floor_div(-17, 16), -2);
}

#[test]
fn world_to_tile_index_maps_and_guards() {
    let t = Tiles::new(10, 10, 16);
    assert_eq!(t.world_to_tile_index(0, 0), Some((0, 0)));
    assert_eq!(t.world_to_tile_index(33, 5), Some((2, 0)));
    assert_eq!(t.world_to_tile_index(159, 159), Some((9, 9)));
    // negative and out-of-extent positions are rejected, not wrapped
    assert_eq!(t.world_to_tile_index(-1, 5), None);
    assert_eq!(t.world_to_tile_index(5, -1), None);
    assert_eq!(t.world_to_tile_index(160, 0), None);
    assert_eq!(t.world_to_tile_index(0, 160), None);
    assert_eq!(t.world_to_tile_index(i64::MAX, 0), None);
    assert_eq!(t.world_to_tile_index(0, i64::MAX), None);
}

#[test]
fn radius_zero_returns_exactly_the_tile() {
    let mut t = Tiles::new(10, 10, 16);
    t.add_entity("a".to_string(), 10, 20);
    t.add_entity("b".to_string(), 12, 22);
    t.add_entity("far".to_string(), 100, 100);
    let got = t.get_entities_in_radius(10, 20, 0);
    assert_eq!(got, vec!["a".to_string(), "b".to_string()]);
    let empty = t.get_entities_in_radius(60, 60, 0);
    assert!(empty.is_empty());
}

#[test]
fn add_entity_outside_grid_is_a_guarded_no_op() {
    let mut t = Tiles::new(10, 10, 16);
    t.add_entity("ghost".to_string(), -5, 3);
    t.add_entity("ghost".to_string(), 500, 3);
    for x in 0..10 {
        for y in 0..10 {
            assert!(t.get_entities_in_radius(x * 16, y * 16, 0).is_empty());
        }
    }
}

#[test]
fn remove_entity_removes_and_misses_silently() {
    let mut t = Tiles::new(10, 10, 16);
    t.add_entity("a".to_string(), 10, 20);
    t.add_entity("b".to_string(), 10, 20);
    // miss: wrong tile, then unknown id — both silent no-ops
    t.remove_entity("a", 5, 5);
    t.remove_entity("zz", 0, 1);
    assert_eq!(
        t.get_entities_in_radius(10, 20, 0),
        vec!["a".to_string(), "b".to_string()]
    );
    t.remove_entity("a", 0, 1);
    assert_eq!(t.get_entities_in_radius(10, 20, 0), vec!["b".to_string()]);
}

#[test]
fn move_within_one_tile_changes_nothing() {
    let mut t = Tiles::new(10, 10, 16);
    t.add_entity("a".to_string(), 10, 20);
    t.move_entity("a", 10, 20, 12, 22);
    assert_eq!(t.get_entities_in_radius(10, 20, 0), vec!["a".to_string()]);
    t.move_entity("a", 12, 22, 40, 40);
    assert!(t.get_entities_in_radius(10, 20, 0).is_empty());
    assert_eq!(t.get_entities_in_radius(40, 40, 0), vec!["a".to_string()]);
}

#[test]
fn radius_grows_monotonically() {
    let mut t = Tiles::new(10, 10, 16);
    t.add_entity("center".to_string(), 80, 80);
    t.add_entity("near".to_string(), 64, 80);
    t.add_entity("diag".to_string(), 48, 48);
    t.add_entity("far".to_string(), 0, 0);
    let mut prev: Vec<String> = Vec::new();
    for r in 0..6 {
        let cur = t.get_entities_in_radius(80, 80, r);
        for id in &prev {
            assert!(cur.contains(id), "radius {} lost {}", r, id);
        }
        prev = cur;
    }
    assert_eq!(prev.len(), 4);
}

#[test]
fn radius_uses_chebyshev_tiles_not_euclidean_distance() {
    let mut t = Tiles::new(10, 10, 16);
    // diagonal neighbour tile: Chebyshev distance 1, Euclidean distance of
    // the positions well above one tile size
    t.add_entity("diag".to_string(), 95, 95);
    let got = t.get_entities_in_radius(80, 80, 1);
    assert_eq!(got, vec!["diag".to_string()]);
    let negative = t.get_entities_in_radius(80, 80, -1);
    assert!(negative.is_empty());
}

#[test]
fn radius_scan_is_row_major() {
    let mut t = Tiles::new(10, 10, 16);
    t.add_entity("mid".to_string(), 80, 80);
    t.add_entity("left".to_string(), 64, 80);
    t.add_entity("above".to_string(), 80, 64);
    t.add_entity("below".to_string(), 80, 96);
    let got = t.get_entities_in_radius(80, 80, 1);
    assert_eq!(
        got,
        vec![
            "above".to_string(),
            "left".to_string(),
            "mid".to_string(),
            "below".to_string()
        ]
    );
}

#[test]
fn format_vector_joins_with_commas() {
    assert_eq!(format_vector(&vec![]), "[]");
    assert_eq!(format_vector(&vec!["a".to_string()]), "[a]");
    assert_eq!(
        format_vector(&vec!["a".to_string(), "b".to_string(), "c".to_string()]),
        "[a, b, c]"
    );
}

#[test]
fn empty_grid_answers_queries_without_entries() {
    let t = Tiles::new(0, 0, 16);
    assert_eq!(t.world_to_tile_index(0, 0), None);
    assert!(t.get_entities_in_radius(0, 0, 3).is_empty());
    let one_row = Tiles::new(4, 1, 16);
    assert_eq!(one_row.world_to_tile_index(50, 0), Some((3, 0)));
    assert_eq!(one_row.world_to_tile_index(0, 16), None);
}

#[test]
fn str_eq_compares_content() {
    assert!(str_eq("abc", "abc"));
    assert!(!str_eq("abc", "abd"));
    assert!(!str_eq("abc", "ab"));
    assert!(str_eq("", ""));
}
