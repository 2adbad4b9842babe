use chat_sentiment::series::window_starts;

#[test]
fn windows_group_close_points() {
    assert_eq!(window_starts(&vec![0, 10, 20, 100, 105, 160], 50), vec![0, 3, 5]);
}

#[test]
fn zero_width_windows_hold_one_point_each() {
    assert_eq!(window_starts(&vec![5, 5, 7], 0), vec![0, 1, 2]);
}

#[test]
fn single_point_is_one_window() {
    assert_eq!(window_starts(&vec![42], 1000), vec![0]);
}

#[test]
fn window_boundary_is_exclusive() {
    assert_eq!(window_starts(&vec![0, 49, 50, 99, 100], 50), vec![0, 2, 4]);
}
