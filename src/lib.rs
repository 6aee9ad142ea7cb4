//! Recent-file registry of a desktop markdown editor: a bounded,
//! deduplicated list of file records ordered by when each was last opened,
//! with staleness checks against on-disk modification times.

pub mod record;
pub mod order;
pub mod registry;
pub mod laws;
