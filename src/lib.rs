//! Locating icon files according to the XDG icon theme rules: resolving the
//! inheritance graph of icon themes, matching a requested size and scale to the
//! directories of a theme, and memoising lookups per theme.

pub mod cache;
pub mod files;
pub mod icon;
pub mod index;
pub mod matcher;
pub mod resolve;
pub mod theme;

pub use cache::{IconsCache, ThemeCache};
pub use files::FileSet;
pub use icon::{FileType, IconFile, Icons};
pub use index::{EntryAttr, EntrySection};
pub use theme::{
    DirectoryIndex, DirectoryType, IconCandidate, RequiredAttribute, Theme, ThemeIndex, ThemeInfo,
    ThemeParseError,
};
