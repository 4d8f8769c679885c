//! Reading an iCalendar document down to busy intervals and nothing else:
//! no title, description, location or attendee is ever parsed.

pub mod lines;
pub mod property;
pub mod values;
pub mod recur;
pub mod scan;
