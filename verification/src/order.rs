//! Orders as a trader or the replayed tape submits them.

use vstd::prelude::*;
use crate::types::{Direction, OrderID, Price, Size};

verus! {

/// An order to trade `size` lots at whatever prices the opposite side offers.
#[derive(Debug, PartialEq, Eq, Structural, PartialOrd, Ord, Clone, Copy)]
pub struct MarketOrder {
    pub order_id: OrderID,
    pub size: Size,
    pub direction: Direction,
}

/// An order to trade `size` lots at `price` or better.
#[derive(Debug, PartialEq, Eq, Structural, PartialOrd, Ord, Clone, Copy)]
pub struct LimitOrder {
    pub order_id: OrderID,
    pub size: Size,
    pub direction: Direction,
    pub price: Price,
}

impl MarketOrder {
    pub fn new(order_id: OrderID, size: Size, direction: Direction) -> (r: MarketOrder)
        ensures
            r == (MarketOrder { order_id, size, direction }),
    {
        MarketOrder { order_id, size, direction }
    }

    pub fn get_order_id(&self) -> (r: OrderID)
        ensures
            r == self.order_id,
    {
        self.order_id
    }

    pub fn get_order_size(&self) -> (r: Size)
        ensures
            r == self.size,
    {
        self.size
    }

    pub fn get_order_direction(&self) -> (r: Direction)
        ensures
            r == self.direction,
    {
        self.direction
    }
}

impl LimitOrder {
    pub fn new(order_id: OrderID, size: Size, direction: Direction, price: Price) -> (r: LimitOrder)
        ensures
            r == (LimitOrder { order_id, size, direction, price }),
    {
        LimitOrder { order_id, size, direction, price }
    }

    pub fn get_order_id(&self) -> (r: OrderID)
        ensures
            r == self.order_id,
    {
        self.order_id
    }

    pub fn get_order_size(&self) -> (r: Size)
        ensures
            r == self.size,
    {
        self.size
    }

    pub fn get_order_direction(&self) -> (r: Direction)
        ensures
            r == self.direction,
    {
        self.direction
    }

    pub fn get_price(&self) -> (r: Price)
        ensures
            r == self.price,
    {
        self.price
    }
}

} // verus!
