use vstd::prelude::*;

use crate::event::Event;
use crate::event::EventModel;
use crate::event::EventType;
use crate::event::events_view;
use crate::span::TimeSpan;
use crate::time_card::TimeCard;
use crate::time_card::empty_model;
use crate::time_card::fold_events;

verus! {

/// Relies on `std::time::SystemTime::now` and `duration_since(UNIX_EPOCH)`
/// for the wall-clock reading: `Ok` carries whole milliseconds since the
/// Unix epoch, `Err` whole milliseconds before it (a clock set earlier than
/// the epoch). Both arms are plain conversions, so the read is total; the
/// value depends on the clock, so nothing is promised of it.
#[verifier::external_body]
fn millis_since_epoch() -> Result<u64, u64> {
    match std::time::SystemTime::now().duration_since(std::time::UNIX_EPOCH) {
        Ok(d) => Ok(d.as_millis() as u64),
        Err(e) => Err(e.duration().as_millis() as u64),
    }
}

/// The wall clock as signed milliseconds since the Unix epoch, negative for
/// a clock set before it, saturated at the `i64` range. Total: a
/// misconfigured host clock yields a value, never a panic.
fn now_millis() -> i64 {
    match millis_since_epoch() {
        Ok(m) => {
            if m <= (i64::MAX as u64) {
                m as i64
            } else {
                i64::MAX
            }
        },
        Err(m) => {
            if m <= (i64::MAX as u64) {
                -(m as i64)
            } else {
                i64::MIN
            }
        },
    }
}

/// The subsequence of `evs` whose timestamps lie within `span`, in the
/// original order.
pub open spec fn events_within(evs: Seq<EventModel>, span: TimeSpan) -> Seq<EventModel>
    decreases evs.len(),
{
    if evs.len() == 0 {
        Seq::empty()
    } else if span.spec_contains(evs.last().time) {
        events_within(evs.drop_last(), span).push(evs.last())
    } else {
        events_within(evs.drop_last(), span)
    }
}

/// Law: the events within a span are exactly the subsequence of the log
/// whose timestamps lie in the span, in the original order: `events_within`
/// coincides with filtering the log by span membership.
pub proof fn lemma_events_within_is_filter(evs: Seq<EventModel>, span: TimeSpan)
    ensures
        events_within(evs, span) == evs.filter(|e: EventModel| span.spec_contains(e.time)),
    decreases evs.len(),
{
    reveal(Seq::filter);
    if evs.len() > 0 {
        lemma_events_within_is_filter(evs.drop_last(), span);
    }
}

/// An append-only ordered log of events. Insertion order is append order;
/// existing entries are never changed or removed. Its view is the sequence
/// of event models in insertion order.
pub struct Journal {
    events: Vec<Event>,
}

impl View for Journal {
    type V = Seq<EventModel>;

    closed spec fn view(&self) -> Seq<EventModel> {
        events_view(self.events@)
    }
}

impl Journal {
    /// A fresh journal holding no events.
    pub fn new() -> (j: Journal)
        ensures
            j@ == Seq::<EventModel>::empty(),
    {
        let j = Journal { events: Vec::new() };
        proof {
            assert(j@ =~= Seq::<EventModel>::empty());
        }
        j
    }

    /// Append an event carrying the given timestamp: the log grows by
    /// exactly that event, at the end; nothing else changes.
    pub fn log_event_at(&mut self, key: String, event_type: EventType, time: i64)
        ensures
            final(self)@ == old(self)@.push(
                EventModel { time: time as int, event_type, key: key@ },
            ),
    {
        let ghost k = key@;
        let event = Event::new(time, event_type, key);
        self.events.push(event);
        proof {
            assert(self@ =~= old(self)@.push(EventModel { time: time as int, event_type, key: k }));
        }
    }

    /// Read the wall clock and append a START/STOP event for the task key:
    /// the log grows by exactly one event, which carries the given kind and
    /// key and whatever timestamp the clock supplied. Always succeeds.
    pub fn log_event(&mut self, key: String, event_type: EventType)
        ensures
            final(self)@.len() == old(self)@.len() + 1,
            final(self)@.subrange(0, old(self)@.len() as int) == old(self)@,
            final(self)@.last().event_type == event_type,
            final(self)@.last().key == key@,
    {
        let now = now_millis();
        self.log_event_at(key, event_type, now);
        proof {
            assert(self@.subrange(0, old(self)@.len() as int) =~= old(self)@);
        }
    }

    /// The logged events, in insertion order.
    pub fn events(&self) -> (r: &Vec<Event>)
        ensures
            events_view(r@) == self@,
    {
        &self.events
    }

    /// Exactly those logged events whose timestamp falls within the closed
    /// span, in their original insertion order. Pure: the journal is not
    /// changed.
    #[verifier::loop_isolation(false)]
    pub fn events_in_timespan(&self, span: TimeSpan) -> (r: Vec<Event>)
        ensures
            events_view(r@) == events_within(self@, span),
    {
        let mut out: Vec<Event> = Vec::new();
        let mut i: usize = 0;
        while i < self.events.len()
            invariant
                i <= self.events@.len(),
                events_view(out@) == events_within(self@.take(i as int), span),
            decreases self.events@.len() - i,
        {
            let e = &self.events[i];
            if span.contains(e.time) {
                out.push(e.clone());
            }
            proof {
                assert(self@.take(i as int + 1).drop_last() =~= self@.take(i as int));
                assert(self@.take(i as int + 1).last() == self@[i as int]);
                assert(events_view(out@) =~= events_within(self@.take(i as int + 1), span));
            }
            i += 1;
        }
        proof {
            assert(self@.take(self.events@.len() as int) =~= self@);
        }
        out
    }

    /// The time card aggregated from the events within the span: equivalent
    /// to `TimeCard::new_from_events(self.events_in_timespan(span))`.
    pub fn get_timecard_for_timespan(&self, span: TimeSpan) -> (card: TimeCard)
        ensures
            card.wf(),
            card.model() == fold_events(empty_model(), events_within(self@, span)),
    {
        let events = self.events_in_timespan(span);
        TimeCard::new_from_events(events)
    }
}

} // verus!
