use vstd::prelude::*;

use crate::event::SourceError;
use crate::types::{Message, SourceId};

verus! {

/// What the core offers modules while they handle an event: sending through a
/// source, a source's nick, and timers. Each timer delivers a `Timer(id)`
/// event from the core's own source.
pub trait CoreApi {
    /// Sends `msg` through source `source`.
    fn send(&mut self, source: &SourceId, msg: Message) -> Result<(), SourceError>;

    /// The bot's nick on source `source`, or empty.
    fn get_nick(&self, source: &SourceId) -> String;

    /// Delivers a timer event with identifier `id` after `after_ms` milliseconds,
    /// replacing any pending timer with the same identifier.
    fn schedule_timer(&mut self, id: String, after_ms: u64);
}

} // verus!
