//! Fills: the record of one match between a resting order and an incoming
//! one.

use vstd::prelude::*;
use crate::order::OrderView;
use crate::price::Price;

verus! {

/// A fill as a value.
pub struct FillView {
    pub maker: Seq<char>,
    pub taker: Seq<char>,
    pub price: Price,
    pub quantity: nat,
}

/// One match: `quantity` changed hands at `price` between the trader whose
/// order rested, the maker, and the trader whose order came in, the taker.
#[derive(Debug, PartialEq, Eq)]
pub struct Fill {
    maker: String,
    taker: String,
    price: Price,
    quantity: u64,
}

impl View for Fill {
    type V = FillView;

    closed spec fn view(&self) -> FillView {
        FillView {
            maker: self.maker@,
            taker: self.taker@,
            price: self.price,
            quantity: self.quantity as nat,
        }
    }
}

impl Clone for Fill {
    fn clone(&self) -> (copy: Fill)
        ensures
            copy@ == self@,
    {
        Fill {
            maker: self.maker.clone(),
            taker: self.taker.clone(),
            price: self.price,
            quantity: self.quantity,
        }
    }
}

impl Fill {
    /// The fill of `quantity` at `price` between `maker` and `taker`.
    pub fn new(maker: String, taker: String, price: Price, quantity: u64) -> (fill: Fill)
        ensures
            fill@ == (FillView { maker: maker@, taker: taker@, price, quantity: quantity as nat }),
    {
        Fill { maker, taker, price, quantity }
    }

    /// The trader whose order was resting.
    pub fn get_maker(&self) -> (maker: &String)
        ensures
            maker@ == self@.maker,
    {
        &self.maker
    }

    /// The trader whose order came in.
    pub fn get_taker(&self) -> (taker: &String)
        ensures
            taker@ == self@.taker,
    {
        &self.taker
    }

    /// The price at which the quantity changed hands: that of the resting
    /// order.
    pub fn get_price(&self) -> (price: Price)
        ensures
            price == self@.price,
    {
        self.price
    }

    /// The quantity that changed hands.
    pub fn get_quantity(&self) -> (quantity: u64)
        ensures
            quantity == self@.quantity,
    {
        self.quantity
    }
}

/// The fills of `fills` as values, in the same order.
pub open spec fn fill_views(fills: Seq<Fill>) -> Seq<FillView> {
    fills.map_values(|fill: Fill| fill@)
}

/// The fills that come of matching a quantity `qty` of `taker` against the
/// queue `orders` from the front: one for each resting order that gives
/// something up, oldest first, each at the resting order's price and for
/// the lesser of what is still wanted and what that order has.
pub open spec fn fills_of(orders: Seq<OrderView>, taker: Seq<char>, qty: nat) -> Seq<FillView>
    decreases orders.len(),
{
    if orders.len() == 0 || qty == 0 {
        Seq::empty()
    } else {
        let take = if qty >= orders[0].size {
            orders[0].size
        } else {
            qty
        };
        seq![
            FillView { maker: orders[0].trader_id, taker, price: orders[0].price, quantity: take },
        ] + fills_of(orders.skip(1), taker, (qty - take) as nat)
    }
}

/// The quantity of all of `fills` together.
pub open spec fn filled_total(fills: Seq<FillView>) -> nat
    decreases fills.len(),
{
    if fills.len() == 0 {
        0
    } else {
        fills[0].quantity + filled_total(fills.skip(1))
    }
}

} // verus!
