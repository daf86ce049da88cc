use crate::decimal::DecimalValue;
use vstd::prelude::*;

verus! {

/// Identifies an order; unique among the orders resting in a book.
#[derive(Debug, Clone, Copy, PartialEq, Eq, Hash, Structural)]
pub struct OrderId(pub u64);

/// A number of units of a product.
#[derive(Debug, Clone, Copy, PartialEq, Eq, Hash, Structural)]
pub struct Quantity(pub u64);

/// The time at which an order was placed.
#[derive(Debug, Clone, Copy, PartialEq, Eq, Hash, Structural)]
pub struct Timestamp(pub u64);

/// Names the product that an order trades.
#[derive(Debug, Clone, PartialEq, Eq, Hash)]
pub struct ProductId(pub String);

/// A unit price; prices are compared by the value of their decimal.
#[derive(Debug, Clone, Copy, PartialEq, Eq)]
pub struct Price(pub DecimalValue);

} // verus!
