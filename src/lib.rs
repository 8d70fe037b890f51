//! A local mirror of events from a remote WordPress events API: fetching pages of
//! remote events, storing them without overwriting locally edited fields, tracking
//! who takes part in which event, assembling the events with their participants, and
//! tying bearer tokens to users.

pub mod config;
pub mod events;
pub mod pinkpolitiek_api;
pub mod source;
pub mod store;
pub mod users;
