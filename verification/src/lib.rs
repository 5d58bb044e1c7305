//! The logic of a note vault inside an editor, and of the reports that the
//! editor sends when something goes wrong.
//!
//! - [`notes`] and [`backlinks`] are the two panels of the vault; [`entries`]
//!   and [`panel`] hold what they share.
//! - [`actions`] gathers which actions kept the foreground busy, [`hang`]
//!   reports hangs, and [`clock`] holds the times that both speak of.
//! - [`minidump`] puts crash reports together, and [`uploads`] decides which
//!   files are sent and removed.
//! - [`text`], [`numerals`] and [`order`] are the groundwork.

pub mod actions;
pub mod backlinks;
pub mod clock;
pub mod entries;
pub mod hang;
pub mod minidump;
pub mod notes;
pub mod numerals;
pub mod order;
pub mod panel;
pub mod text;
pub mod uploads;
