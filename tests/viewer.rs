use point_cloud_viewer::paths::{ensure_trailing_slash, join_range, path_components, split_dataset_path};
use point_cloud_viewer::viewer::{
    state_from, AppState, CommandLineArguments, PointsViewerError, PREFIX_MISSING, UUID_MISSING,
};
use point_cloud_viewer::cache::LoadError;

fn args(path: Option<&str>, prefix: Option<&str>, id: Option<&str>, suffix: &str) -> CommandLineArguments {
    CommandLineArguments {
        octree_path: path.map(|s| s.to_string()),
        port: 5433,
        ip: "127.0.0.1".to_string(),
        path_prefix: prefix.map(|s| s.to_string()),
        path_suffix: suffix.to_string(),
        octree_id: id.map(|s| s.to_string()),
        cache_max: 1,
    }
}

#[test]
fn state_from_directory() {
    let (st, id) = state_from::<u8>(args(Some("/data/octrees/abc/"), None, None, "/")).unwrap();
    assert_eq!(st.prefix, "/data/octrees");
    assert_eq!(st.suffix, "/");
    assert_eq!(id, "abc");
    assert_eq!(st.cache.capacity(), 1);
    assert_eq!(st.cache.len(), 0);
}

#[test]
fn state_from_directory_with_suffix() {
    let (st, id) = state_from::<u8>(args(Some("/data/octrees/abc/tree"), None, None, "tree")).unwrap();
    assert_eq!(st.prefix, "/data/octrees");
    assert_eq!(st.suffix, "tree/");
    assert_eq!(id, "abc/tree");
}

#[test]
fn state_from_relative_directory() {
    let (st, id) = state_from::<u8>(args(Some("abc"), None, None, "/")).unwrap();
    assert_eq!(st.prefix, "");
    assert_eq!(id, "abc");
    let (st, id) = state_from::<u8>(args(Some("/abc"), None, None, "/")).unwrap();
    assert_eq!(st.prefix, "/");
    assert_eq!(id, "abc");
}

#[test]
fn state_from_root_is_invalid() {
    let r = state_from::<u8>(args(Some("/"), None, None, "/"));
    assert_eq!(r.err(), Some(PointsViewerError::InvalidPath("/".to_string())));
    let r = state_from::<u8>(args(Some("tree"), None, None, "tree/"));
    assert_eq!(r.err(), Some(PointsViewerError::InvalidPath("tree".to_string())));
}

#[test]
fn state_from_prefix_and_uuid() {
    let (st, id) = state_from::<u8>(args(None, Some("/srv/octrees"), Some("u-1"), "data")).unwrap();
    assert_eq!(st.prefix, "/srv/octrees");
    assert_eq!(st.suffix, "data/");
    assert_eq!(id, "u-1");
}

#[test]
fn state_from_missing_arguments() {
    assert_eq!(
        state_from::<u8>(args(None, None, Some("u"), "/")).err(),
        Some(PointsViewerError::NotFound(PREFIX_MISSING.to_string()))
    );
    assert_eq!(
        state_from::<u8>(args(None, Some("/p"), None, "/")).err(),
        Some(PointsViewerError::NotFound(UUID_MISSING.to_string()))
    );
    assert!(PREFIX_MISSING.ends_with("check prefix"));
    assert!(UUID_MISSING.ends_with("check uuid"));
}

#[test]
fn state_from_zero_cache() {
    let mut a = args(None, Some("/p"), Some("u"), "/");
    a.cache_max = 0;
    assert_eq!(state_from::<u8>(a).err(), Some(PointsViewerError::ZeroCacheCapacity));
}

#[test]
fn insert_octree_prewarms_cache() {
    let mut st: AppState<u32> = AppState::new(2, "/p".to_string(), "/".to_string()).unwrap();
    let loader = |id: &String| -> Result<u32, LoadError> { Ok(id.len() as u32) };
    assert!(st.insert_octree(&"abc".to_string(), &loader).is_ok());
    assert!(st.cache.contains(&"abc".to_string()));
    assert!(AppState::<u32>::new(0, String::new(), String::new()).is_none());
}

#[test]
fn path_helpers() {
    assert_eq!(path_components("//a/b//c/"), vec!["a", "b", "c"]);
    assert!(path_components("/").is_empty());
    let cs = path_components("x/y/z");
    assert_eq!(join_range(&cs, 0, 3), "x/y/z");
    assert_eq!(join_range(&cs, 1, 2), "y");
    assert_eq!(join_range(&cs, 2, 2), "");
    assert_eq!(ensure_trailing_slash("a".to_string()), "a/");
    assert_eq!(ensure_trailing_slash("a/".to_string()), "a/");
    assert_eq!(ensure_trailing_slash(String::new()), "/");
    assert_eq!(
        split_dataset_path("/r/s/", "/"),
        Some(("/r".to_string(), "s".to_string()))
    );
    assert_eq!(split_dataset_path("", "/"), None);
}
