//! A traversal engine that reorders a directory walk by physical layout.
//!
//! The library holds the decisions of the walk: which directory to open next,
//! when to buffer entries and in which order to hand them out, and which
//! read-ahead hints to give. The caller performs the I/O that each step asks
//! for and reports what it found.
pub mod entry;
pub mod prefetch;
pub mod scan;

pub use entry::{Entry, FileExtent, FileKind};
pub use prefetch::{DeviceHints, Mount};
pub use scan::{Order, Phase, Step, ToScan};
