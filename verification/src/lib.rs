//! Crabex: a price-time priority matching engine with account ledgers.

pub mod types;
pub mod prices;
pub mod clock;
pub mod orderbook;
pub mod matching_laws;
pub mod engine;
pub mod bots;
pub mod ledger_laws;
pub mod reservations;
