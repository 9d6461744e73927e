//! Scheduling core of a meeting-announcement bot: the weekly schedule, the
//! suspensions that keep a meeting quiet for a while, the periodic decisions
//! that turn the schedule into announcements, and the parsing and formatting
//! of the values that users type and read.

pub mod clock;
pub mod commands;
pub mod manager;
pub mod meeting;
pub mod messages;
pub mod suspension;
pub mod weekday;
