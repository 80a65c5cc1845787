//! Orchestration engine for keeping local mirrors of every repository of a
//! GitLab group or GitHub organization: listing, per-repository sync plans,
//! scheduling and reporting.

pub mod model;
pub mod text;
pub mod worker;
pub mod listing;
pub mod scheduler;
pub mod report;
pub mod render;
