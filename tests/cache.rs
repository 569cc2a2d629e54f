use point_cloud_viewer::cache::{LoadError, OctreeCache};
use std::cell::RefCell;

fn key(s: &str) -> String {
    s.to_string()
}

#[test]
fn zero_capacity_is_refused() {
    assert!(OctreeCache::<u32>::new(0).is_none());
    assert!(OctreeCache::<u32>::new(1).is_some());
}

#[test]
fn capacity_one_reloads_evicted_identifier() {
    let log: RefCell<Vec<String>> = RefCell::new(Vec::new());
    let loader = |id: &String| -> Result<String, LoadError> {
        log.borrow_mut().push(id.clone());
        Ok(format!("octree {}", id))
    };
    let mut cache = OctreeCache::new(1).unwrap();
    assert_eq!(cache.get_or_load(&key("A"), &loader).unwrap(), "octree A");
    assert_eq!(cache.get_or_load(&key("B"), &loader).unwrap(), "octree B");
    assert_eq!(cache.get_or_load(&key("A"), &loader).unwrap(), "octree A");
    assert_eq!(*log.borrow(), vec![key("A"), key("B"), key("A")]);
    assert_eq!(cache.load_count(), 3);
    assert_eq!(cache.resident(), vec![key("A")]);
}

#[test]
fn repeated_access_loads_once() {
    let loads = RefCell::new(0u32);
    let loader = |_id: &String| -> Result<u32, LoadError> {
        *loads.borrow_mut() += 1;
        Ok(7)
    };
    let mut cache = OctreeCache::new(2).unwrap();
    for _ in 0..5 {
        assert_eq!(cache.get_or_load(&key("cold"), &loader), Ok(7));
    }
    assert_eq!(*loads.borrow(), 1);
    assert_eq!(cache.load_count(), 1);
}

#[test]
fn resident_set_is_most_recent_identifiers() {
    let loader = |id: &String| -> Result<usize, LoadError> { Ok(id.len()) };
    let mut cache = OctreeCache::new(3).unwrap();
    for id in ["a", "b", "c", "a", "d", "e", "a", "f"] {
        cache.get_or_load(&key(id), &loader).unwrap();
        assert!(cache.len() <= 3);
    }
    // last accesses, most recent last: ..., e, a, f
    assert_eq!(cache.resident(), vec![key("e"), key("a"), key("f")]);
    assert!(cache.contains(&key("a")));
    assert!(!cache.contains(&key("d")));
}

#[test]
fn hit_refreshes_recency() {
    let loader = |_id: &String| -> Result<u8, LoadError> { Ok(1) };
    let mut cache = OctreeCache::new(2).unwrap();
    cache.get_or_load(&key("x"), &loader).unwrap();
    cache.get_or_load(&key("y"), &loader).unwrap();
    cache.get_or_load(&key("x"), &loader).unwrap();
    cache.get_or_load(&key("z"), &loader).unwrap();
    assert_eq!(cache.resident(), vec![key("x"), key("z")]);
}

#[test]
fn failed_load_leaves_cache_unchanged() {
    let loader = |id: &String| -> Result<u8, LoadError> {
        if id == "missing" {
            Err(LoadError { message: "no such octree".to_string() })
        } else {
            Ok(2)
        }
    };
    let mut cache = OctreeCache::new(1).unwrap();
    cache.get_or_load(&key("present"), &loader).unwrap();
    let err = cache.get_or_load(&key("missing"), &loader).unwrap_err();
    assert_eq!(err.message, "no such octree");
    assert_eq!(cache.resident(), vec![key("present")]);
    assert_eq!(cache.load_count(), 1);
    assert!(cache.insert(&key("missing"), &loader).is_err());
    assert!(cache.insert(&key("other"), &loader).is_ok());
    assert_eq!(cache.resident(), vec![key("other")]);
}
