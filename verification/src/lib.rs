//! An append-only journal of timestamped start/stop events for named tasks,
//! with aggregation into a per-task time card.

pub mod event;
pub mod journal;
pub mod serializable;
pub mod span;
pub mod time_card;

pub use event::Event;
pub use event::EventType;
pub use journal::Journal;
pub use span::TimeSpan;
pub use time_card::ActionType;
pub use time_card::TaskAction;
pub use time_card::TimeCard;
