use hiroz_nav::costmap::OccupancyGrid;
use hiroz_nav::static_map::StaticMap;

fn classes_dark_occupied() -> Vec<i8> {
    // Dark pixels occupied, light pixels free, the middle unknown.
    (0..256)
        .map(|p| if p < 50 { 1 } else if p > 200 { 0 } else { -1 })
        .collect()
}

#[test]
fn from_pixels_flips_rows() {
    // Image rows from the top: [0, 255, 128], [255, 255, 0]
    let raw = [0u8, 255, 128, 255, 255, 0];
    let map = StaticMap::from_pixels(3, 2, &raw, &classes_dark_occupied());
    assert_eq!(map.width, 3);
    assert_eq!(map.height, 2);
    // Row 0 of the map is the bottom row of the image.
    assert_eq!(map.cells, vec![0, 0, 1, 1, 0, -1]);
    assert!(map.is_occupied(2, 0));
    assert!(map.is_free(0, 0));
    assert!(map.is_occupied(0, 1));
    assert!(!map.is_free(2, 1));
    assert!(!map.is_occupied(2, 1));
}

#[test]
fn counts_cover_all_cells() {
    let raw = [0u8, 255, 128, 255, 255, 0];
    let map = StaticMap::from_pixels(3, 2, &raw, &classes_dark_occupied());
    assert_eq!(map.occupied_count(), 2);
    assert_eq!(map.free_count(), 3);
    assert_eq!(map.unknown_count(), 1);
    assert_eq!(
        map.occupied_count() + map.free_count() + map.unknown_count(),
        map.width * map.height
    );
}

#[test]
fn empty_image_gives_empty_map() {
    let map = StaticMap::from_pixels(0, 0, &[], &classes_dark_occupied());
    assert_eq!(map.cells.len(), 0);
    assert_eq!(map.occupied_count(), 0);
    assert_eq!(map.unknown_count(), 0);
}

#[test]
fn checked_cell_bounds() {
    let map = StaticMap { width: 4, height: 3, cells: vec![0; 12] };
    assert_eq!(map.checked_cell(0, 0), Some((0, 0)));
    assert_eq!(map.checked_cell(3, 2), Some((3, 2)));
    assert_eq!(map.checked_cell(4, 0), None);
    assert_eq!(map.checked_cell(0, 3), None);
    assert_eq!(map.checked_cell(-1, 1), None);
    assert_eq!(map.checked_cell(1, -1), None);
}

#[test]
fn new_grid_is_unknown() {
    let g = OccupancyGrid::new(4);
    assert_eq!(g.width_cells, 4);
    assert_eq!(g.height_cells, 4);
    assert_eq!(g.cells, vec![-1; 16]);
    assert_eq!(g.occupied_count(), 0);
}

#[test]
fn mark_occupied_counts_once() {
    let mut g = OccupancyGrid::new(3);
    g.mark_occupied_at(1, 2);
    assert_eq!(g.cells[2 * 3 + 1], 1);
    assert_eq!(g.occupied_count(), 1);
    g.mark_occupied_at(1, 2);
    assert_eq!(g.occupied_count(), 1);
    g.mark_occupied_at(0, 0);
    assert_eq!(g.occupied_count(), 2);
}

#[test]
fn mark_outside_changes_nothing() {
    let mut g = OccupancyGrid::new(3);
    g.mark_occupied_at(3, 0);
    g.mark_occupied_at(-1, 0);
    g.mark_occupied_at(0, 3);
    assert_eq!(g.cells, vec![-1; 9]);
    assert_eq!(g.checked_cell(2, 2), Some((2, 2)));
    assert_eq!(g.checked_cell(2, 3), None);
}

#[test]
fn cell_symbols() {
    let map = StaticMap { width: 3, height: 1, cells: vec![1, 0, -1] };
    assert_eq!(map.cell_symbol(0, 0), '#');
    assert_eq!(map.cell_symbol(1, 0), '.');
    assert_eq!(map.cell_symbol(2, 0), '?');
}
