//! A directory of assistance locations: tag sets with an overlap score, a
//! registry of location records with optimistic updates and preference
//! ranking, and a binary export of the registry.

pub mod catalogue;
pub mod contact;
pub mod edit;
pub mod export;
pub mod hex;
pub mod locations;
pub mod record;
pub mod settings;
pub mod tags;
pub mod time;
