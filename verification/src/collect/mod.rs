//! What the kernel and `zpool` print, read into the data model.

pub mod amounts;
pub mod blocks;
pub mod events;
pub mod kstat;
pub mod printed;
pub mod record;
pub mod status;
pub mod wording;
