//! Accomplishment tracker: verified core logic.

pub mod text;

pub mod levenshtein_distance;
pub mod principles;
pub mod fixed_string;
pub mod event;
pub mod binary;
pub mod search;
pub mod statistics;
pub mod presentation;
pub mod convert;
