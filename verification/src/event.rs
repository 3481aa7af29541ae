use vstd::prelude::*;

verus! {

/// The kind of boundary an event marks for a task: clocking in or clocking out.
#[derive(Clone, Copy, PartialEq, Eq, Structural, Debug)]
pub enum EventType {
    START,
    STOP,
}

/// Mathematical value of an `Event`: the timestamp in milliseconds since the
/// Unix epoch, the kind of the event, and the task key as a character sequence.
pub ghost struct EventModel {
    pub time: int,
    pub event_type: EventType,
    pub key: Seq<char>,
}

/// One immutable start/stop occurrence for a task, stamped with the local
/// wall-clock time in milliseconds since the Unix epoch.
#[derive(PartialEq, Eq, Debug)]
pub struct Event {
    pub time: i64,
    pub event_type: EventType,
    pub key: String,
}

impl View for Event {
    type V = EventModel;

    open spec fn view(&self) -> EventModel {
        EventModel { time: self.time as int, event_type: self.event_type, key: self.key@ }
    }
}

impl EventType {
    /// The upper-case name this kind carries in the rendered audit trail.
    pub fn label(&self) -> (r: String)
        ensures
            *self is START ==> r@ == "START"@,
            *self is STOP ==> r@ == "STOP"@,
    {
        match self {
            EventType::START => "START".to_owned(),
            EventType::STOP => "STOP".to_owned(),
        }
    }
}

/// The event models of an executable event list, in the same order.
pub open spec fn events_view(s: Seq<Event>) -> Seq<EventModel> {
    s.map_values(|e: Event| e@)
}

impl Clone for Event {
    fn clone(&self) -> (e: Self)
        ensures
            e@ == self@,
    {
        Event { time: self.time, event_type: self.event_type, key: self.key.clone() }
    }
}

impl Event {
    /// A pure value constructor: the event records exactly the given
    /// timestamp, kind and task key.
    pub fn new(time: i64, event_type: EventType, key: String) -> (e: Event)
        ensures
            e@ == (EventModel { time: time as int, event_type, key: key@ }),
    {
        Event { time, event_type, key }
    }
}

} // verus!
