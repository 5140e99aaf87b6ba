//! Temporal aggregation of calendars: recurring events are expanded inside the collection's
//! window, every occurrence is indexed by month, ISO week and day, and the indices are turned
//! into paginated pages and seven-day week grids.

pub mod date;
pub mod label;
pub mod event;
pub mod calendar;
pub mod index;
pub mod week;
pub mod collection;
pub mod laws;
