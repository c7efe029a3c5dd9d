//! zresmon: a ZFS resilver and scrub monitor whose reading of the system is
//! verified.
//!
//! Everything in this crate is a function from plain values to plain values.
//! The text that the kernel and `zpool` print comes in as `&str`, a wall clock
//! comes in as a [`model::Timestamp`], and what goes out is a snapshot, a
//! decision or a frame that says what to draw.

pub mod app;
pub mod bignat;
pub mod binary64;
pub mod collect;
pub mod decimal;
pub mod demo;
pub mod figures;
pub mod layout;
pub mod model;
pub mod number;
pub mod rounding;
pub mod shown;
pub mod spread;
pub mod style;
pub mod surface;
pub mod text;
pub mod tree;
pub mod ui;
pub mod writing;
