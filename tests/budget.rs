use point_cloud_viewer::budget::PointBudget;
use point_cloud_viewer::stream::Flow;

#[test]
fn budget_stops_at_maximum() {
    let mut b = PointBudget::new(1000);
    assert_eq!(b.record(600).flow, Flow::Continue);
    assert_eq!(b.record(400).flow, Flow::Stop);
    assert_eq!(b.count(), 1000);
}

#[test]
fn budget_reports_each_million() {
    let mut b = PointBudget::new(usize::MAX);
    assert_eq!(b.record(999_999).progress, None);
    assert_eq!(b.record(1).progress, Some(1));
    assert_eq!(b.record(500_000).progress, None);
    assert_eq!(b.record(2_000_000).progress, Some(3));
    assert_eq!(b.record(10).progress, Some(3));
    assert_eq!(b.record(10).progress, None);
}

#[test]
fn budget_count_saturates() {
    let mut b = PointBudget::new(5);
    b.record(usize::MAX);
    b.record(usize::MAX);
    assert_eq!(b.count(), usize::MAX);
}
