use timecard::event::Event;
use timecard::event::EventType;
use timecard::time_card::ActionType;
use timecard::time_card::TimeCard;

fn get_event(key: &str, event_type: EventType) -> Event {
    Event::new(
        chrono::Local::now().timestamp_millis(),
        event_type,
        key.to_owned(),
    )
}

#[test]
fn new_returns_empty_time_card() {
    let empty_event_list = Vec::new();
    let time_card = TimeCard::new_from_events(empty_event_list);
    assert!(time_card.current_task == "")
}

#[test]
fn multiple_events_one_in_progress() {
    let mut events = Vec::with_capacity(10);
    events.push(get_event("event1", EventType::START));
    events.push(get_event("event1", EventType::STOP));
    events.push(get_event("event2", EventType::START));

    let time_card = TimeCard::new_from_events(events);

    assert_eq!("event2", time_card.current_task);
}

#[test]
fn fresh_card_is_empty() {
    let card = TimeCard::new();
    assert_eq!(card.current_task, "");
    assert_eq!(card.current_task().as_str(), "");
    assert_eq!(card.num_tasks(), 0);
    assert!(card.task_keys().is_empty());
    assert!(card.get_actions("anything").is_none());
}

#[test]
fn current_task_is_last_started() {
    let events = vec![
        Event::new(1, EventType::START, "A".to_owned()),
        Event::new(2, EventType::STOP, "A".to_owned()),
        Event::new(3, EventType::START, "B".to_owned()),
    ];
    let card = TimeCard::new_from_events(events);
    assert_eq!(card.current_task, "B");
    assert_eq!(card.current_task().as_str(), "B");
}

#[test]
fn stop_does_not_clear_current_task() {
    let events = vec![
        Event::new(1, EventType::START, "A".to_owned()),
        Event::new(2, EventType::STOP, "A".to_owned()),
    ];
    let card = TimeCard::new_from_events(events);
    assert_eq!(card.current_task, "A");
}

#[test]
fn grouping_by_key_keeps_order() {
    let events = vec![
        Event::new(1, EventType::START, "A".to_owned()),
        Event::new(2, EventType::START, "B".to_owned()),
        Event::new(3, EventType::STOP, "A".to_owned()),
    ];
    let card = TimeCard::new_from_events(events);

    let a = card.get_actions("A").expect("task A is recorded");
    assert_eq!(a.len(), 2);
    assert_eq!(a[0].action_type, ActionType::START);
    assert_eq!(a[0].time, 1);
    assert_eq!(a[1].action_type, ActionType::STOP);
    assert_eq!(a[1].time, 3);

    let b = card.get_actions("B").expect("task B is recorded");
    assert_eq!(b.len(), 1);
    assert_eq!(b[0].action_type, ActionType::START);
    assert_eq!(b[0].time, 2);

    assert_eq!(card.num_tasks(), 2);
    assert!(card.get_actions("C").is_none());
}

#[test]
fn incremental_matches_batch() {
    let events = vec![
        Event::new(1, EventType::START, "A".to_owned()),
        Event::new(2, EventType::STOP, "A".to_owned()),
        Event::new(3, EventType::START, "B".to_owned()),
        Event::new(4, EventType::START, "A".to_owned()),
    ];

    let batch = TimeCard::new_from_events(events.clone());

    let mut incremental = TimeCard::new();
    for event in &events {
        incremental.add_event(event);
    }

    assert_eq!(batch, incremental);
    assert_eq!(batch.current_task, incremental.current_task);
    assert_eq!(
        batch.get_actions("A").unwrap(),
        incremental.get_actions("A").unwrap()
    );
}

#[test]
fn unpaired_events_are_accepted() {
    let events = vec![
        Event::new(1, EventType::STOP, "A".to_owned()),
        Event::new(2, EventType::START, "A".to_owned()),
        Event::new(3, EventType::START, "A".to_owned()),
    ];
    let card = TimeCard::new_from_events(events);
    let a = card.get_actions("A").expect("task A is recorded");
    assert_eq!(a.len(), 3);
    assert_eq!(a[0].action_type, ActionType::STOP);
    assert_eq!(card.current_task, "A");
}

#[test]
fn action_type_labels_are_title_case() {
    assert_eq!(ActionType::START.label(), "Start");
    assert_eq!(ActionType::STOP.label(), "Stop");
}

#[test]
fn event_type_labels_are_upper_case() {
    assert_eq!(EventType::START.label(), "START");
    assert_eq!(EventType::STOP.label(), "STOP");
}
