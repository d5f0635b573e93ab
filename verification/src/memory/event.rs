//! Episodic events: what happened, when, and where it came from.

use vstd::prelude::*;

use crate::json::{Json, JsonView};

verus! {

/// One entry of the episodic log.
#[derive(Debug)]
pub struct Event {
    pub id: u128,
    pub source: String,
    pub event_type: String,
    pub payload: Json,
    /// Nanoseconds since the Unix epoch.
    pub timestamp: i128,
    pub parent_id: Option<u128>,
    pub trace_id: Option<String>,
    pub tags: Vec<String>,
    pub idempotency_key: Option<String>,
}

pub struct EventView {
    pub id: u128,
    pub source: Seq<char>,
    pub event_type: Seq<char>,
    pub payload: JsonView,
    pub timestamp: int,
    pub parent_id: Option<u128>,
    pub trace_id: Option<Seq<char>>,
    pub tags: Seq<Seq<char>>,
    pub idempotency_key: Option<Seq<char>>,
}

impl View for Event {
    type V = EventView;

    open spec fn view(&self) -> EventView {
        EventView {
            id: self.id,
            source: self.source@,
            event_type: self.event_type@,
            payload: self.payload@,
            timestamp: self.timestamp as int,
            parent_id: self.parent_id,
            trace_id: crate::text::opt_view(self.trace_id),
            tags: crate::text::views(self.tags@),
            idempotency_key: crate::text::opt_view(self.idempotency_key),
        }
    }
}

impl Event {
    pub fn copy(&self) -> (r: Event)
        ensures
            r@ == self@,
    {
        Event {
            id: self.id,
            source: self.source.clone(),
            event_type: self.event_type.clone(),
            payload: self.payload.copy(),
            timestamp: self.timestamp,
            parent_id: self.parent_id,
            trace_id: crate::memory::cognition::copy_opt(&self.trace_id),
            tags: crate::text::copy_strings(&self.tags),
            idempotency_key: crate::memory::cognition::copy_opt(&self.idempotency_key),
        }
    }
}

} // verus!
