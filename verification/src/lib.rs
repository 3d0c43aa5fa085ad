//! A calendar-event filtering engine: events are classified into groups by
//! property-matching rules, dropped when they fall inside declared date
//! windows, and the surviving events' durations are accumulated per group.

pub mod text;
pub mod time;
pub mod event;
pub mod rules;
pub mod pipeline;
