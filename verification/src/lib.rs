//! # icon_finder
//!
//! Find the path to a Linux application's icon by name and resolution, in the
//! icon themes of XDG desktops.
//!
//! Regular icon names (`firefox`) and Flatpak reverse-DNS names
//! (`com.obsproject.Studio`) are both looked for. Where there is no icon under
//! the exact name, a name without a dot is matched against the reverse-DNS names
//! on the system.
//!
//! The library does no input or output. It is handed probes, which say whether a
//! path is present and what a directory or a text file holds, and it decides
//! what to ask and what follows from the answers.
//!
//! - [`finder`]: the whole search, and what is kept between searches
//! - [`base_dirs`] and [`active_theme`]: where the search begins
//! - [`themes`], [`size_dirs`], [`icon_dir`]: themes, their size directories, and
//!   the files in them
//! - [`fuzzy`]: reverse-DNS names that answer to a short query
//! - [`places`] and [`outcome`]: where an icon can be on a disk, and the laws of
//!   what is found there
//! - [`disk`]: the probes, and the model of the file system that the contracts
//!   speak of
//! - [`path`], [`names`], [`text`], [`number`], [`encoding`]: the notions below
//!   them

pub mod active_theme;
pub mod base_dirs;
pub mod disk;
pub mod encoding;
pub mod finder;
pub mod fuzzy;
pub mod icon_dir;
pub mod names;
pub mod number;
pub mod outcome;
pub mod path;
pub mod places;
pub mod size_dirs;
pub mod text;
pub mod themes;

pub use active_theme::current_icon_theme;
pub use base_dirs::icon_base_dirs;
pub use disk::{DirEntry, EntryKind};
pub use finder::{find_icon, IconCache};
pub use icon_dir::find_flat;
pub use path::FsPath;
