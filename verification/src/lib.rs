//! Skyline route planning for a personal shopper: which sequences of stores
//! collect a shopping list on the way from the shopper to the customer, and
//! which of them are not beaten in both travel time and purchase cost.
//!
//! All quantities are exact integers. Prices are in minor currency units,
//! times and coordinates in whole units of the caller's choosing.

pub mod algorithms;
pub mod models;
pub mod utils;

pub use algorithms::bsl_psd::BSLPSD;
pub use models::{Product, RouteCandidate, ShoppingList, ShoppingRoute, Store};
