//! Verified core of the Axii script-extender loader: pattern scanning of the
//! game image, PE section-table parsing, symbol-offset maps, hook patch
//! encoding, plugin discovery and Steam library lookup.
pub mod hook;
pub mod image;
pub mod offsets;
pub mod pattern;
pub mod plugins;
pub mod steam;
pub mod wide;
