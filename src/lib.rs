//! Weekly class timetable: compact time codes, courses and a conflict-checked grid.
pub mod abbreviation;
pub mod disciplina;
pub mod schedule;
pub mod shorthand;
pub mod time;

pub use schedule::{DisciplineWasFound, Schedule, ScheduleError, ScheduleUnity};
