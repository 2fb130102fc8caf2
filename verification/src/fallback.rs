//! What is needed to undo a membership change whose entry is dropped from the log.

use crate::entry::LogEntry;
use std::sync::Arc;
use vstd::prelude::*;

verus! {

/// The context of a membership change that may have to be undone.
#[derive(Debug)]
pub struct FallbackContext<C> {
    /// The entry of the membership change
    pub origin_entry: Arc<LogEntry<C>>,
    /// The addresses of the old configuration
    pub addrs: Vec<String>,
    /// The name of the old configuration
    pub name: String,
    /// The client URLs of the old configuration
    pub client_urls: Vec<String>,
    /// Whether the old configuration is that of a learner
    pub is_learner: bool,
}

impl<C> FallbackContext<C> {
    /// Creates a context.
    pub fn new(
        origin_entry: Arc<LogEntry<C>>,
        addrs: Vec<String>,
        name: String,
        client_urls: Vec<String>,
        is_learner: bool,
    ) -> (context: Self)
        ensures
            context == (FallbackContext { origin_entry, addrs, name, client_urls, is_learner }),
    {
        FallbackContext { origin_entry, addrs, name, client_urls, is_learner }
    }
}

} // verus!
