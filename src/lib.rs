//! Decklists resolved into card records, a store of decks with the counts at hand of
//! their cards, a fuzzy search over all cards, and a cache of card images.

pub mod cache;
pub mod decklist;
pub mod models;
pub mod search;
pub mod store;
