use vstd::prelude::*;
use crate::cache::{LoadError, OctreeCache, lru_access};
use crate::paths::{
    dataset_id, ensure_trailing_slash, splittable, split_dataset_path, storage_prefix,
    with_trailing_slash,
};

verus! {

/// Settings of the web viewer as given on its command line.
#[derive(Clone, Debug, PartialEq, Eq)]
pub struct CommandLineArguments {
    /// The octree directory to serve.
    pub octree_path: Option<String>,
    /// Port to listen on.
    pub port: u16,
    /// Address to listen on.
    pub ip: String,
    /// Storage prefix, used when no octree directory is given.
    pub path_prefix: Option<String>,
    /// Path below a dataset's directory that holds the octree.
    pub path_suffix: String,
    /// Dataset identifier, used when no octree directory is given.
    pub octree_id: Option<String>,
    /// Capacity of the octree cache.
    pub cache_max: usize,
}

/// Why the viewer's state could not be set up.
#[derive(Clone, Debug, PartialEq, Eq)]
pub enum PointsViewerError {
    /// A required argument is missing.
    NotFound(String),
    /// The octree directory has no component to take as an identifier.
    InvalidPath(String),
    /// The cache capacity is zero.
    ZeroCacheCapacity,
}

/// The configuration shared by all request handlers, and the octree cache.
pub struct AppState<H> {
    pub prefix: String,
    pub suffix: String,
    pub cache: OctreeCache<H>,
}

impl<H> AppState<H> {
    pub open spec fn wf(&self) -> bool {
        self.cache.wf()
    }

    /// A state with an empty cache of `cache_max` entries; none when
    /// `cache_max` is zero.
    pub fn new(cache_max: usize, prefix: String, suffix: String) -> (r: Option<Self>)
        ensures
            r is Some <==> cache_max >= 1,
            r matches Some(st) ==> {
                &&& st.wf()
                &&& st.prefix == prefix
                &&& st.suffix == suffix
                &&& st.cache.cap() == cache_max
                &&& st.cache@.len() == 0
                &&& st.cache.load_total() == 0
            },
    {
        match OctreeCache::new(cache_max) {
            Some(cache) => Some(AppState { prefix, suffix, cache }),
            None => None,
        }
    }
}

impl<H: Clone> AppState<H> {
    /// Loads `id` into the cache ahead of its first request.
    pub fn insert_octree<F: Fn(&String) -> Result<H, LoadError>>(&mut self, id: &String, load: F) -> (r:
        Result<(), LoadError>)
        requires
            old(self).wf(),
            load.requires((id,)),
        ensures
            final(self).wf(),
            final(self).prefix == old(self).prefix,
            final(self).suffix == old(self).suffix,
            final(self).cache.cap() == old(self).cache.cap(),
            r is Ok ==> final(self).cache.keys() == lru_access(
                old(self).cache.keys(),
                id@,
                old(self).cache.cap(),
            ),
            old(self).cache.keys().contains(id@) ==> r is Ok,
            !old(self).cache.keys().contains(id@) ==> {
                &&& r matches Err(e) ==> load.ensures((id,), Err::<H, LoadError>(e))
                &&& r is Ok ==> exists|h: H| #[trigger] load.ensures((id,), Ok::<H, LoadError>(h))
            },
            r is Err ==> final(self).cache == old(self).cache,
    {
        self.cache.insert(id, load)
    }
}

/// Message when neither an octree directory nor a storage prefix is given.
pub const PREFIX_MISSING: &'static str = "Input argument syntax is incorrect: check prefix";

/// Message when neither an octree directory nor an octree identifier is given.
pub const UUID_MISSING: &'static str = "Input argument syntax is incorrect: check uuid";

/// The state and the identifier of the dataset to serve first.
///
/// The path suffix gets a trailing `/` if it lacks one. With an octree
/// directory, it is split into storage prefix and identifier (see
/// `split_dataset_path`); without one, the prefix and the identifier must
/// both be given.
pub fn state_from<H>(args: CommandLineArguments) -> (r: Result<(AppState<H>, String), PointsViewerError>)
    ensures
        ({
            let suffix = with_trailing_slash(args.path_suffix@);
            match args.octree_path {
                Some(path) => if !splittable(path@, suffix) {
                    r == Err::<(AppState<H>, String), _>(PointsViewerError::InvalidPath(path))
                } else if args.cache_max == 0 {
                    r == Err::<(AppState<H>, String), _>(PointsViewerError::ZeroCacheCapacity)
                } else {
                    r matches Ok((st, id)) && st.prefix@ == storage_prefix(path@, suffix) && id@
                        == dataset_id(path@, suffix)
                },
                None => if args.path_prefix is None {
                    r matches Err(PointsViewerError::NotFound(m)) && m@ == PREFIX_MISSING@
                } else if args.octree_id is None {
                    r matches Err(PointsViewerError::NotFound(m)) && m@ == UUID_MISSING@
                } else if args.cache_max == 0 {
                    r == Err::<(AppState<H>, String), _>(PointsViewerError::ZeroCacheCapacity)
                } else {
                    r matches Ok((st, id)) && st.prefix == args.path_prefix->Some_0 && id
                        == args.octree_id->Some_0
                },
            }
        }),
        r matches Ok((st, _)) ==> {
            &&& st.wf()
            &&& st.suffix@ == with_trailing_slash(args.path_suffix@)
            &&& st.cache.cap() == args.cache_max
            &&& st.cache@.len() == 0
            &&& st.cache.load_total() == 0
        },
{
    let suffix = ensure_trailing_slash(args.path_suffix);
    let (prefix, id) = match args.octree_path {
        Some(path) => match split_dataset_path(path.as_str(), suffix.as_str()) {
            Some(parts) => parts,
            None => {
                return Err(PointsViewerError::InvalidPath(path));
            },
        },
        None => {
            let prefix = match args.path_prefix {
                Some(p) => p,
                None => {
                    return Err(
                        PointsViewerError::NotFound(
                            String::from_str(PREFIX_MISSING),
                        ),
                    );
                },
            };
            let id = match args.octree_id {
                Some(u) => u,
                None => {
                    return Err(
                        PointsViewerError::NotFound(
                            String::from_str(UUID_MISSING),
                        ),
                    );
                },
            };
            (prefix, id)
        },
    };
    match AppState::new(args.cache_max, prefix, suffix) {
        Some(st) => Ok((st, id)),
        None => Err(PointsViewerError::ZeroCacheCapacity),
    }
}

} // verus!
