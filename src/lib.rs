pub mod config;
pub mod processor;
pub mod timetable;
