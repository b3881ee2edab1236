use vstd::prelude::*;

use crate::uid::fresh_uuid;

verus! {

/// A one-shot action at a scheduled virtual time. The kernel orders and
/// dispatches events; the behaviour attached to one (its callback) is host
/// code that the host looks up by the event's identifier or name when the
/// scheduler hands the event back at dispatch time.
pub struct Event {
    name: String,
    id: u128,
}

/// The mathematical image of an [`Event`].
pub struct EventModel {
    pub name: Seq<char>,
    pub id: u128,
}

impl View for Event {
    type V = EventModel;

    closed spec fn view(&self) -> EventModel {
        EventModel { name: self.name@, id: self.id }
    }
}

impl Event {
    /// Create an event; a fresh random identifier is drawn for it.
    pub fn new(name: &str) -> (e: Event)
        ensures
            e@.name == name@,
    {
        Event { name: name.to_owned(), id: fresh_uuid() }
    }

    /// The event's name.
    pub fn name(&self) -> (r: &String)
        ensures
            r@ == self@.name,
    {
        &self.name
    }

    /// The event's identifier.
    pub fn id(&self) -> (r: u128)
        ensures
            r == self@.id,
    {
        self.id
    }
}

} // verus!
