//! The application without its shell: what is collected, what is shown, and
//! what the keys do.

pub mod drawn;
pub mod frame;
pub mod keys;
pub mod merged;
pub mod panels;
pub mod report;
pub mod session;
pub mod source;
pub mod startup;

pub use frame::{render_frame, render_frame_ctx, render_frame_scrolled, ViewCtx};
pub use report::once_output;
pub use session::{Key, Session};
pub use source::{DemoSource, LiveSource};
