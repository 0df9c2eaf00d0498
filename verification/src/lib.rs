//! Picks the icons an application needs out of an icon theme.
//!
//! A walk through the theme's directories collects the files whose names
//! hold one of the wanted icon names; each file found is then given the
//! place below the output directory that it had below the theme's root.

pub mod failure;
pub mod relative;
pub mod scan;
pub mod text;
pub mod tree;
