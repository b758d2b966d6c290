//! Core of a daily time tracker: activities carry a classification and a
//! time-of-day interval, possibly open-ended; overlapping activities are
//! reconciled into a single non-overlapping timeline (the "closure") in
//! which the highest-priority classification wins and the metadata of all
//! contributors is merged.

pub mod time_of_day;
pub mod interval;
pub mod text;
pub mod identifier;
pub mod activity_class;
pub mod project;
pub mod activity;
pub mod job_config;
pub mod fold;
pub mod activity_closure;
pub mod dirty;
pub mod day;
pub mod local_time;
pub mod az_hash;
pub mod render;
pub mod quota;
