use timecard::event::EventType;
use timecard::journal::Journal;
use timecard::span::TimeSpan;
use timecard::time_card::ActionType;

#[test]
fn journal_is_append_only() {
    let mut journal = Journal::new();
    assert_eq!(journal.events().len(), 0);

    journal.log_event("A".to_owned(), EventType::START);
    journal.log_event("B".to_owned(), EventType::START);
    journal.log_event("A".to_owned(), EventType::STOP);

    let events = journal.events();
    assert_eq!(events.len(), 3);
    assert_eq!(events[0].key, "A");
    assert_eq!(events[0].event_type, EventType::START);
    assert_eq!(events[1].key, "B");
    assert_eq!(events[1].event_type, EventType::START);
    assert_eq!(events[2].key, "A");
    assert_eq!(events[2].event_type, EventType::STOP);
}

#[test]
fn timespan_filter_keeps_order_and_bounds() {
    let mut journal = Journal::new();
    journal.log_event_at("A".to_owned(), EventType::START, 10);
    journal.log_event_at("A".to_owned(), EventType::STOP, 20);
    journal.log_event_at("B".to_owned(), EventType::START, 30);

    let within = journal.events_in_timespan(TimeSpan::new(10, 20));
    assert_eq!(within.len(), 2);
    assert_eq!(within[0].time, 10);
    assert_eq!(within[1].time, 20);

    let middle = journal.events_in_timespan(TimeSpan::new(15, 35));
    assert_eq!(middle.len(), 2);
    assert_eq!(middle[0].time, 20);
    assert_eq!(middle[0].key, "A");
    assert_eq!(middle[1].time, 30);
    assert_eq!(middle[1].key, "B");

    let empty = journal.events_in_timespan(TimeSpan::new(100, 200));
    assert!(empty.is_empty());
}

#[test]
fn timespan_contains_is_a_closed_interval() {
    let span = TimeSpan::new(10, 20);
    assert!(span.contains(10));
    assert!(span.contains(15));
    assert!(span.contains(20));
    assert!(!span.contains(9));
    assert!(!span.contains(21));
}

#[test]
fn timecard_for_timespan_aggregates_filtered_events() {
    let mut journal = Journal::new();
    journal.log_event_at("A".to_owned(), EventType::START, 10);
    journal.log_event_at("A".to_owned(), EventType::STOP, 20);
    journal.log_event_at("B".to_owned(), EventType::START, 30);

    let card = journal.get_timecard_for_timespan(TimeSpan::new(5, 25));
    assert_eq!(card.current_task, "A");
    assert_eq!(card.num_tasks(), 1);
    let a = card.get_actions("A").expect("task A is recorded");
    assert_eq!(a.len(), 2);
    assert_eq!(a[0].action_type, ActionType::START);
    assert_eq!(a[1].action_type, ActionType::STOP);
    assert!(card.get_actions("B").is_none());
}

#[test]
fn start_then_stop_round_trip() {
    let mut journal = Journal::new();
    journal.log_event("SS-12345".to_owned(), EventType::START);
    journal.log_event("SS-12345".to_owned(), EventType::STOP);

    let events = journal.events();
    assert_eq!(events.len(), 2);
    assert_eq!(events[0].event_type, EventType::START);
    assert_eq!(events[0].key, "SS-12345");
    assert_eq!(events[1].event_type, EventType::STOP);
    assert_eq!(events[1].key, "SS-12345");
    assert!(events[0].time <= events[1].time);
}
