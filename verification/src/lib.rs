//! A hierarchical task-lifecycle coordinator.
//!
//! Tasks are organized into named groups arranged in a tree, and a caller can
//! cooperatively stop an entire subtree, waiting until every task in it has
//! actually exited, not merely been asked to exit.
//!
//! This crate verifies the coordination core: the two-phase stop-signal
//! protocol (ask every task to stop, then confirm that all of them have
//! exited) and the group registry with its parent/child adjacency index and
//! descendant closure. The scheduler that drives task futures and the channel
//! that reports task outcomes are external collaborators: a driving layer
//! binds each task id minted here to a real future and feeds completion
//! events back into the model.

pub mod manager;
pub mod signal;

pub use manager::{GroupStop, TaskManager};
pub use signal::{StopBroadcaster, StopListener};
