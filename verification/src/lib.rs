//! Verified solutions to a set of small simulation puzzles.

pub mod captcha;
pub mod defrag;
pub mod error;
pub mod firewall;
pub mod garbage;
pub mod generators;
pub mod memory;
pub mod passphrase;
pub mod registers;
pub mod spiral;
pub mod spreadsheet;
pub mod text;
pub mod vortex;
