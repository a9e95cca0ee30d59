use chaff::model::{elapsed_seconds, join_path};

#[test]
fn joins_relative_paths() {
    assert_eq!(join_path("/h", ".config"), "/h/.config");
    assert_eq!(join_path("/h/", ".config"), "/h/.config");
    assert_eq!(join_path("", "x"), "x");
}

#[test]
fn elapsed_time_in_whole_seconds() {
    assert_eq!(elapsed_seconds(Some(0), 2_500_000_000), Some(2));
    assert_eq!(elapsed_seconds(Some(-1_000_000_000), 1_000_000_000), Some(2));
    assert_eq!(elapsed_seconds(Some(10), 5), None);
    assert_eq!(elapsed_seconds(None, 5), None);
    assert_eq!(elapsed_seconds(Some(i128::MIN), i128::MAX), Some(u64::MAX));
}
