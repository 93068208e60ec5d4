use nimby_graph::geojson::find_free_grid_cell;

#[test]
fn test_find_free_grid_cell_ideal_free() {
    assert_eq!(find_free_grid_cell((3, 4), &[(0, 0), (1, 1)]), (3, 4));
}

#[test]
fn test_find_free_grid_cell_nearby_order() {
    assert_eq!(find_free_grid_cell((0, 0), &[(0, 0)]), (1, 0));
    assert_eq!(find_free_grid_cell((0, 0), &[(0, 0), (1, 0)]), (-1, 0));
    assert_eq!(find_free_grid_cell((5, 5), &[(5, 5), (6, 5), (4, 5)]), (5, 6));
}
