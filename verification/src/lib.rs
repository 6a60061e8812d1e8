//! A verified core for a capability-based file browser and text editor.
//!
//! The library has three parts: an in-memory tree snapshot of a directory
//! (`entry`), a traversal engine that rebuilds such a snapshot from a
//! capability-based provider (`traverse`), and an editor-session state
//! machine that tracks load/dirty/save transitions for one open file
//! (`session`). The `provider` module holds a verified in-memory reference
//! model of the host's capability interface, against which the traversal
//! engine and the session controller are specified and tested.

pub mod entry;
pub mod order;
pub mod provider;
pub mod session;
pub mod traverse;
