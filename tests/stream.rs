use point_cloud_viewer::stream::{
    filter_points, make_batch, Aabb, Attribute, BatchCollector, BatchStream, Color, Completion,
    ConfigError, Flow, ParallelBatchStreamer, Point3, PointQuery, PointRecord,
    StreamError,
};

fn rec(x: i64, y: i64, z: i64) -> PointRecord {
    PointRecord {
        position: Point3 { x, y, z },
        color: Color { red: x as u8, green: 2, blue: 3 },
        intensity: (x * 10) as i32,
    }
}

fn unit_box() -> Aabb {
    Aabb::new(Point3 { x: -1, y: -1, z: -1 }, Point3 { x: 1, y: 1, z: 1 })
}

fn query() -> PointQuery {
    PointQuery { attributes: vec![Attribute::Color, Attribute::Intensity], location: unit_box() }
}

fn streamer(n: usize, batch: usize) -> ParallelBatchStreamer {
    let locations = (0..n).map(|i| format!("loc{}", i)).collect();
    ParallelBatchStreamer::new(locations, 4, batch).unwrap()
}

fn sizes(c: &BatchCollector) -> Vec<usize> {
    c.received()
        .iter()
        .map(|(b, _)| {
            assert_eq!(b.color.len(), b.position.len());
            assert_eq!(b.intensity.len(), b.position.len());
            b.position.len()
        })
        .collect()
}

fn points(c: &BatchCollector) -> Vec<Point3> {
    c.received().iter().flat_map(|(b, _)| b.position.iter().copied()).collect()
}

fn recorder(stop_after: usize) -> BatchCollector {
    BatchCollector::new(stop_after)
}

/// `inside` points at the origin plus as many far away.
fn location(inside: usize) -> Vec<PointRecord> {
    let mut v = Vec::new();
    for i in 0..inside {
        v.push(rec(0, 0, (i % 2) as i64));
        v.push(rec(5, 0, 0));
    }
    v
}

#[test]
fn config_errors() {
    assert_eq!(ParallelBatchStreamer::new(vec![], 1, 1).err(), Some(ConfigError::NoLocations));
    assert_eq!(
        ParallelBatchStreamer::new(vec!["a".to_string()], 0, 1).err(),
        Some(ConfigError::ZeroThreads)
    );
    assert_eq!(
        ParallelBatchStreamer::new(vec!["a".to_string()], 1, 0).err(),
        Some(ConfigError::ZeroBatchSize)
    );
    let s = ParallelBatchStreamer::new(vec!["a".to_string()], 3, 9).unwrap();
    assert_eq!(s.num_threads(), 3);
    assert_eq!(s.points_per_batch(), 9);
    assert_eq!(s.locations(), &vec!["a".to_string()]);
}

#[test]
fn box_contains_its_faces() {
    let b = unit_box();
    assert!(b.contains(&Point3 { x: 1, y: -1, z: 0 }));
    assert!(!b.contains(&Point3 { x: 2, y: 0, z: 0 }));
    assert!(!b.contains(&Point3 { x: 0, y: 0, z: -2 }));
}

#[test]
fn twenty_five_points_in_two_locations() {
    let sources = vec![Ok(location(15)), Ok(location(10))];
    let mut sink = recorder(usize::MAX);
    let r = streamer(2, 10).for_each_point_data(&sources, &query(), &mut sink);
    assert_eq!(r, Ok(Completion::Finished(3)));
    assert_eq!(sizes(&sink), vec![10, 10, 5]);
    assert_eq!(points(&sink).len(), 25);
}

#[test]
fn no_matching_points_means_no_callback() {
    let far = vec![rec(9, 9, 9), rec(-9, 0, 0)];
    let sources = vec![Ok(far.clone()), Ok(far)];
    let mut sink = recorder(usize::MAX);
    let r = streamer(2, 4).for_each_point_data(&sources, &query(), &mut sink);
    assert_eq!(r, Ok(Completion::Finished(0)));
    assert!(sizes(&sink).is_empty());
}

#[test]
fn stop_ends_stream_early_without_error() {
    let sources = vec![Ok(location(50)), Ok(location(50))];
    let mut sink = recorder(12);
    let r = streamer(2, 5).for_each_point_data(&sources, &query(), &mut sink);
    assert_eq!(r, Ok(Completion::Stopped(3)));
    assert_eq!(points(&sink).len(), 15);
    assert_eq!(sink.received().last().unwrap().1, Flow::Stop);
    assert!(sink.received()[..2].iter().all(|(_, f)| *f == Flow::Continue));
}

#[test]
fn unreadable_location_is_source_error() {
    let sources = vec![Ok(location(3)), Err("corrupt metadata".to_string()), Ok(location(3))];
    let mut sink = recorder(usize::MAX);
    let r = streamer(3, 2).for_each_point_data(&sources, &query(), &mut sink);
    assert_eq!(r, Err(StreamError::Source("corrupt metadata".to_string())));
    // batches from the location before the failure were delivered
    assert_eq!(sizes(&sink), vec![2, 1]);
}

#[test]
fn stop_before_failure_is_not_an_error() {
    let sources = vec![Ok(location(3)), Err("unreadable".to_string())];
    let mut sink = recorder(1);
    let r = streamer(2, 2).for_each_point_data(&sources, &query(), &mut sink);
    assert_eq!(r, Ok(Completion::Stopped(1)));
}

#[test]
fn batches_reassemble_matching_points() {
    let pts: Vec<PointRecord> = (0..23).map(|i| rec((i % 3) - 1, 0, (i % 5) - 2)).collect();
    let matching = filter_points(&pts, &unit_box());
    let expected: Vec<Point3> = pts
        .iter()
        .filter(|p| p.position.z.abs() <= 1)
        .map(|p| p.position)
        .collect();
    assert_eq!(matching.iter().map(|p| p.position).collect::<Vec<_>>(), expected);
    let mut stream = BatchStream::new(matching, query(), 4);
    let mut joined = Vec::new();
    while let Some(b) = stream.next_batch() {
        assert!(!b.position.is_empty() && b.position.len() <= 4);
        joined.extend(b.position);
    }
    assert_eq!(joined, expected);
}

#[test]
fn stopped_stream_hands_out_nothing() {
    let mut stream = BatchStream::new(location(5), query(), 2);
    assert!(stream.next_batch().is_some());
    stream.stop();
    assert!(stream.next_batch().is_none());
}

#[test]
fn batch_carries_requested_attributes_only() {
    let pts = vec![rec(1, 0, 0), rec(0, 1, 0), rec(-1, 0, 0)];
    let q = PointQuery { attributes: vec![Attribute::Intensity], location: unit_box() };
    let b = make_batch(&pts, 1, 3, &q);
    assert_eq!(b.position, vec![Point3 { x: 0, y: 1, z: 0 }, Point3 { x: -1, y: 0, z: 0 }]);
    assert!(b.color.is_empty());
    assert_eq!(b.intensity, vec![0, -10]);
}
