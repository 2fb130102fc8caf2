//! The replicated log of a consensus node: the entries that a node keeps in memory, cut into
//! batches by their encoded size, and the reactions of a node to a change of its role.
//!
//! - [`entry`]: entries, proposal ids, commands, and the size of an entry's encoding
//! - [`batch`]: how a sequence of sizes is cut into batches
//! - [`ids`]: the proposal ids that occur in a log
//! - [`model`]: the log as a mathematical value, and what each operation makes of it
//! - [`log`], [`append`]: the log and its operations
//! - [`laws`]: what holds of several operations together
//! - [`effects`]: what each call does, in terms of the fields of the log
//! - [`state`]: the reactions to a change of role

pub mod append;
pub mod batch;
pub mod effects;
pub mod entry;
pub mod fallback;
pub mod ids;
pub mod laws;
pub mod log;
pub mod model;
pub mod range;
pub mod snapshot;
pub mod state;

mod std_ext;
