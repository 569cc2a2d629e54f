pub mod budget;
pub mod cache;
pub mod coords;
pub mod paths;
pub mod stream;
pub mod viewer;
