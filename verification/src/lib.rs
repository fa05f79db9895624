//! Series tracking library.
pub mod text;
pub mod calendar;
pub mod series;
pub mod grouping;
pub mod properties;
pub mod episode_name;
pub mod uri;
pub mod scan;
pub mod dashboard;
