//! PinnacleSort finds files that have not been accessed for a while, lets the
//! caller curate them through a tree of folders, and removes what stays
//! selected.
//!
//! The library decides and never touches the disk. A scan and a commit are
//! state machines: each step takes the answer to the last request and returns
//! the next one, and whoever drives them reads directories, asks for access
//! times, moves and deletes.
//!
//! - [`classifier`]: hidden names, the smart filter, staleness, days since
//!   access.
//! - [`config`], [`home`]: what to search, and where the user's folders lie.
//! - [`scanner`]: the scan, step by step; [`walk`]: what a whole scan finds.
//! - [`candidate`], [`aggregate`]: the found files and what is counted of them.
//! - [`tree`], [`rebuild`], [`shape`], [`browse`]: the folder tree over the
//!   found files, its construction, its uniqueness, and what a presentation
//!   layer asks of it; [`session`]: the files and their tree, kept in step.
//! - [`assoc`]: executables and their support files; [`naming`]: names in the
//!   holding directory; [`commit`]: the removal, step by step.
//! - [`text`], [`path`]: character sequences and paths.

pub mod aggregate;
pub mod assoc;
pub mod browse;
pub mod candidate;
pub mod classifier;
pub mod commit;
pub mod config;
pub mod home;
pub mod naming;
pub mod path;
pub mod rebuild;
pub mod scanner;
pub mod session;
pub mod shape;
pub mod text;
pub mod tree;
pub mod walk;
