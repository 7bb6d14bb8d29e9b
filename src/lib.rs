//! Line-level attribution of source code to human authors or AI tools,
//! attached to commits and carried through history rewrites.
pub mod blame;
pub mod cli;
pub mod codec;
pub mod finalize;
pub mod format;
pub mod model;
pub mod notes;
pub mod propagate;
pub mod staging;
pub mod summary;
