//! A window-switcher core: an immutable directory of open windows, a
//! reversible codec between textual window addresses and 64-bit ids, and a
//! query engine that fuzzy-matches a typed term against window titles.

pub mod codec;
pub mod directory;
pub mod query;
