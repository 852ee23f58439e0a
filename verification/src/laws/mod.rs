//! What holds of the procedures as a whole.

pub mod ancestry;
pub mod building;
pub mod carrying;
pub mod commands;
pub mod configuration;
pub mod counting;
pub mod course;
pub mod coverage;
pub mod creation;
pub mod dispatch;
pub mod effects;
pub mod events;
pub mod exclusion;
pub mod furnishing;
pub mod listing;
pub mod modes;
pub mod names;
pub mod ordering;
pub mod placement;
pub mod plan;
pub mod population;
pub mod reading;
pub mod records;
pub mod removal;
pub mod resolution;
pub mod runs;
pub mod selection;
pub mod showing;
pub mod steady;
pub mod still;
pub mod survey;
pub mod validation;
pub mod working;
