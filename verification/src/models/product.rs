//! Products on sale.

use vstd::prelude::*;
use crate::models::Cost;

verus! {

/// A product as one store sells it.
#[derive(Debug, Clone)]
pub struct Product {
    /// Name of the product.
    pub name: String,
    /// Price of one unit.
    pub cost: Cost,
}

impl Product {
    /// Creates a product with the given name and unit price.
    pub fn new(name: &str, cost: Cost) -> (r: Self)
        ensures
            r.name@ == name@,
            r.cost == cost,
    {
        Self { name: name.to_owned(), cost }
    }
}

} // verus!
