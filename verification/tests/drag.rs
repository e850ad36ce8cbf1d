use octofact::game::drag::{drag_entry, drag_run};

#[test]
fn drag_within_tile_fills_up_to_cursor() {
    assert_eq!(drag_run(0, 2), (vec![1, 2], 2, None));
    assert_eq!(drag_run(0, -1), (vec![-1], -1, None));
    assert_eq!(drag_run(5, 5), (vec![], 5, None));
}

#[test]
fn drag_fills_at_most_four_cells_per_move() {
    assert_eq!(drag_run(0, 10), (vec![1, 2, 3, 4], 4, None));
    assert_eq!(drag_run(20, 40), (vec![21, 22, 23, 24], 24, None));
    assert_eq!(drag_run(0, -9), (vec![-1, -2, -3, -4], -4, None));
}

#[test]
fn drag_past_edge_stops_at_edge() {
    assert_eq!(drag_run(30, 40), (vec![31, 32], 32, Some(32)));
    assert_eq!(drag_run(-30, -50), (vec![-31, -32], -32, Some(-32)));
    assert_eq!(drag_run(28, 40), (vec![29, 30, 31, 32], 32, Some(32)));
    assert_eq!(drag_run(32, 33), (vec![], 32, Some(32)));
}

#[test]
fn drag_entry_skips_shared_edge() {
    assert_eq!(drag_entry(32, -20), (vec![-31, -30, -29, -28], -28));
    assert_eq!(drag_entry(32, -31), (vec![-31], -31));
    assert_eq!(drag_entry(32, -40), (vec![-31], -31));
    assert_eq!(drag_entry(-32, 31), (vec![31], 31));
    assert_eq!(drag_entry(-32, 0), (vec![31, 30, 29, 28], 28));
}
