//! A local persistence core for sticky notes: notes, categories and reminders
//! with soft-delete trash semantics, time-based trash retention, referential
//! integrity across the three tables, an encryption-key lifecycle, and a
//! reminder scheduler. The store itself is a verified in-memory engine; the
//! surrounding process (database file, key file, notification sink) drives it
//! through the operations defined here.

pub mod errors;
pub mod model;
pub mod order;
pub mod store;
pub mod notes;
pub mod clock;
pub mod categories;
pub mod listings;
pub mod reminders;
pub mod responses;
pub mod key_manager;
pub mod scheduler;
pub mod shortcuts;
pub mod laws;
