//! A directory-tree renderer: given the entries of a directory tree, a depth
//! bound and three filter flags, it produces the indented, branch-annotated,
//! colored lines of a tree listing, one per printed entry, in depth-first
//! pre-order.
//!
//! The crate touches no file system. A caller either hands a whole tree to
//! [`list_dir`], or reads one directory at a time and lets [`list_level`]
//! decide what is printed and which directories are entered next.
//!
//! - [`config`]: the configuration of a listing, its two filters, and the
//!   text form of the depth bound.
//! - [`category`]: extensions of file names and their color categories.
//! - [`entry`]: directory entries, trees of them, and their views.
//! - [`render`]: rows, their text, and the listing of a level and of a tree.
//! - [`laws`]: what holds of every listing.

pub mod category;
pub mod config;
pub mod entry;
mod induction;
pub mod laws;
pub mod render;
mod shape;
mod text;

pub use category::{classify, Category};
pub use config::{parse_depth, Config};
pub use entry::{Entry, Node};
pub use render::{list_dir, list_level, list_rows, Row};
