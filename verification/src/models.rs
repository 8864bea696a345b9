//! The data the planner works on.

use vstd::prelude::*;

pub mod location;
pub mod product;
pub mod route;
pub mod shopping_list;
pub mod store;
pub mod travel;

pub use self::location::Location;
pub use self::product::Product;
pub use self::route::{RouteCandidate, ShoppingRoute};
pub use self::shopping_list::ShoppingList;
pub use self::store::Store;
pub use self::travel::TravelMatrix;

verus! {

/// Identifier of a product.
pub type ProductId = u32;

/// Identifier of a store.
pub type StoreId = u32;

/// A price per unit, in minor currency units.
pub type Cost = u64;

/// The price of a whole purchase, in minor currency units.
pub type TotalCost = u128;

/// A travel time, in whole time units.
pub type Time = u64;

} // verus!
