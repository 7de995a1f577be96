//! Orders: a request to buy or sell a quantity at a price.

use vstd::prelude::*;
use std::time::SystemTime;
use crate::error::EngineError;
use crate::price::Price;

verus! {

/// The side of the book an order belongs to: `Bid` buys, `Ask` sells.
#[derive(Debug, Clone, Copy, PartialEq, Eq, Structural)]
pub enum BidorAsk {
    Bid,
    Ask,
}

impl BidorAsk {
    /// The side an order of this side trades against.
    pub open spec fn opposite(self) -> BidorAsk {
        match self {
            BidorAsk::Bid => BidorAsk::Ask,
            BidorAsk::Ask => BidorAsk::Bid,
        }
    }
}

/// `std::time::SystemTime`, carried through as an opaque value.
#[verifier::external_type_specification]
#[verifier::external_body]
pub struct ExSystemTime(SystemTime);

/// `SystemTime::now` reads the system clock. Nothing is claimed of the
/// instant it returns.
pub assume_specification[ SystemTime::now ]() -> (instant: SystemTime);

/// What an order is, as far as matching is concerned. The creation time is
/// left out: priority within a level is position in its queue.
pub struct OrderView {
    pub trader_id: Seq<char>,
    pub price: Price,
    pub size: nat,
    pub side: BidorAsk,
}

impl OrderView {
    /// The same order with `size` left to fill.
    pub open spec fn with_size(self, size: nat) -> OrderView {
        OrderView { size, ..self }
    }

    /// The same order at `price`.
    pub open spec fn with_price(self, price: Price) -> OrderView {
        OrderView { price, ..self }
    }
}

/// A resting or incoming order. Its trader, side and price are fixed when it
/// is made; its remaining size only ever goes down.
#[derive(Debug)]
pub struct Order {
    trader_id: String,
    price: Price,
    size: u64,
    bid_or_ask: BidorAsk,
    timestamp: SystemTime,
}

impl View for Order {
    type V = OrderView;

    closed spec fn view(&self) -> OrderView {
        OrderView {
            trader_id: self.trader_id@,
            price: self.price,
            size: self.size as nat,
            side: self.bid_or_ask,
        }
    }
}

impl Clone for Order {
    fn clone(&self) -> (copy: Order)
        ensures
            copy@ == self@,
    {
        Order {
            trader_id: self.trader_id.clone(),
            price: self.price,
            size: self.size,
            bid_or_ask: self.bid_or_ask,
            timestamp: self.timestamp,
        }
    }
}

impl Order {
    /// Makes an order of `size` at `price`, stamped with the current time.
    /// A size of zero is refused.
    pub fn new(trader_id: String, price: Price, bid_or_ask: BidorAsk, size: u64) -> (result: Result<
        Order,
        EngineError,
    >)
        ensures
            size == 0 ==> result == Err::<Order, EngineError>(EngineError::InvalidOrderSize),
            size > 0 ==> result.is_ok() && result.unwrap()@ == (OrderView {
                trader_id: trader_id@,
                price,
                size: size as nat,
                side: bid_or_ask,
            }),
    {
        if size == 0 {
            return Err(EngineError::InvalidOrderSize);
        }
        Ok(Order { trader_id, price, size, bid_or_ask, timestamp: SystemTime::now() })
    }

    /// Whether nothing is left to fill.
    pub fn is_filled(&self) -> (filled: bool)
        ensures
            filled == (self@.size == 0),
    {
        self.size == 0
    }

    /// The size still to be filled.
    pub fn get_size(&self) -> (size: u64)
        ensures
            size == self@.size,
    {
        self.size
    }

    /// Lowers the remaining size to `new_size`.
    pub fn update_size(&mut self, new_size: u64)
        requires
            new_size <= old(self)@.size,
        ensures
            final(self)@ == old(self)@.with_size(new_size as nat),
    {
        self.size = new_size;
    }

    /// Takes `amount` off the remaining size.
    pub fn reduce_by(&mut self, amount: u64)
        requires
            amount <= old(self)@.size,
        ensures
            final(self)@ == old(self)@.with_size((old(self)@.size - amount) as nat),
    {
        self.size = self.size - amount;
    }

    /// The side of the order.
    pub fn get_order_type(&self) -> (side: BidorAsk)
        ensures
            side == self@.side,
    {
        self.bid_or_ask
    }

    /// The price of the order.
    pub fn get_price(&self) -> (price: Price)
        ensures
            price == self@.price,
    {
        self.price
    }

    /// The trader who placed the order.
    pub fn get_trader_id(&self) -> (trader_id: &String)
        ensures
            trader_id@ == self@.trader_id,
    {
        &self.trader_id
    }

    /// The same order, priced at `price`.
    pub fn at_price(self, price: Price) -> (order: Order)
        ensures
            order@ == self@.with_price(price),
    {
        Order {
            trader_id: self.trader_id,
            price,
            size: self.size,
            bid_or_ask: self.bid_or_ask,
            timestamp: self.timestamp,
        }
    }
}

} // verus!
