//! The order book of one instrument: a side of bids and a side of asks.

use vstd::prelude::*;
use crate::book_side::{cancel_at, drop_level, fill_at, fills_at, has_level, has_order, matched_at};
use crate::book_side::{oldest_order, rank, rest_order, side_valid, sweep, sweep_fills, swept, BookSide};
use crate::fill::{fill_views, Fill};
use crate::limit::{Limit, LimitView};
use crate::order::{BidorAsk, Order, OrderView};
use crate::price::Price;

verus! {

/// A book as a value: the levels of each side, best price first.
pub struct BookView {
    pub asks: Seq<LimitView>,
    pub bids: Seq<LimitView>,
}

impl BookView {
    /// The levels of `side`.
    pub open spec fn on(self, side: BidorAsk) -> Seq<LimitView> {
        match side {
            BidorAsk::Ask => self.asks,
            BidorAsk::Bid => self.bids,
        }
    }

    /// The book with no order in it.
    pub open spec fn empty() -> BookView {
        BookView { asks: Seq::empty(), bids: Seq::empty() }
    }

    /// Asks run from the cheapest up and bids from the highest down, no
    /// price occurs twice on a side, and no level is empty or holds a filled
    /// order or an order of the other side or of another price.
    pub open spec fn valid(self) -> bool {
        side_valid(self.asks, BidorAsk::Ask) && side_valid(self.bids, BidorAsk::Bid)
    }
}

/// The book after a limit order has been placed: the order is matched
/// against the level of the other side that stands at its own price, and
/// what is left of it comes to rest on its own side.
pub open spec fn place_limit(book: BookView, order: OrderView) -> BookView {
    let across = order.side.opposite();
    let left = (order.size - matched_at(book.on(across), order.price, across, order.size)) as nat;
    let thinned = fill_at(book.on(across), order.price, across, order.size);
    let matched = match order.side {
        BidorAsk::Bid => BookView { asks: thinned, bids: book.bids },
        BidorAsk::Ask => BookView { asks: book.asks, bids: thinned },
    };
    if left > 0 {
        rest_in(matched, order.with_size(left))
    } else {
        matched
    }
}

/// The book after a market order has been placed: the order walks the other
/// side from the best price on, and nothing of it comes to rest.
pub open spec fn place_market(book: BookView, order: OrderView) -> BookView {
    let across = order.side.opposite();
    let thinned = sweep(book.on(across), order.size);
    match order.side {
        BidorAsk::Bid => BookView { asks: thinned, bids: book.bids },
        BidorAsk::Ask => BookView { asks: book.asks, bids: thinned },
    }
}

/// The book after the oldest order that `trader` has resting at `price` on
/// `side` has been taken out.
pub open spec fn cancel_in(book: BookView, price: Price, side: BidorAsk, trader: Seq<char>) -> BookView {
    let thinned = cancel_at(book.on(side), price, side, trader);
    match side {
        BidorAsk::Bid => BookView { asks: book.asks, bids: thinned },
        BidorAsk::Ask => BookView { asks: thinned, bids: book.bids },
    }
}

/// The book without the level at `price` on `side`.
pub open spec fn drop_in(book: BookView, price: Price, side: BidorAsk) -> BookView {
    let thinned = drop_level(book.on(side), price, side);
    match side {
        BidorAsk::Bid => BookView { asks: book.asks, bids: thinned },
        BidorAsk::Ask => BookView { asks: thinned, bids: book.bids },
    }
}

/// The book after `order` has come to rest on its side.
pub open spec fn rest_in(book: BookView, order: OrderView) -> BookView {
    let grown = rest_order(book.on(order.side), order, order.side);
    match order.side {
        BidorAsk::Bid => BookView { asks: book.asks, bids: grown },
        BidorAsk::Ask => BookView { asks: grown, bids: book.bids },
    }
}

/// The resting orders of one instrument.
#[derive(Debug)]
pub struct Orderbook {
    asks: BookSide,
    bids: BookSide,
}

impl View for Orderbook {
    type V = BookView;

    closed spec fn view(&self) -> BookView {
        BookView { asks: self.asks@, bids: self.bids@ }
    }
}

impl Orderbook {
    /// Each side is consistent within and stands on its own side.
    pub closed spec fn inv(&self) -> bool {
        &&& self.asks.inv()
        &&& self.asks.side() == BidorAsk::Ask
        &&& self.bids.inv()
        &&& self.bids.side() == BidorAsk::Bid
    }

    /// The book is consistent within, and valid as a value.
    pub open spec fn wf(&self) -> bool {
        self.inv() && self@.valid()
    }

    /// A book with no order in it.
    pub fn new() -> (book: Orderbook)
        ensures
            book.wf(),
            book@ == BookView::empty(),
    {
        Orderbook { asks: BookSide::new(BidorAsk::Ask), bids: BookSide::new(BidorAsk::Bid) }
    }

    /// Puts `order` to rest on its side of the book: at the back of the
    /// level at its price, or in a new level where none is there yet.
    pub fn add_order(&mut self, order: Order)
        requires
            old(self).wf(),
            order@.size > 0,
        ensures
            final(self).wf(),
            final(self)@ == rest_in(old(self)@, order@),
    {
        match order.get_order_type() {
            BidorAsk::Bid => self.bids.add_order(order),
            BidorAsk::Ask => self.asks.add_order(order),
        }
    }

    /// Matches `market_order` against the other side of the book, from the
    /// best price on, until the order is filled or that side is used up.
    /// What is left of the order stays in `market_order`; none of it comes
    /// to rest in the book.
    pub fn fill_market_order(&mut self, market_order: &mut Order) -> (fills: Vec<Fill>)
        requires
            old(self).wf(),
        ensures
            fill_views(fills@) == sweep_fills(
                old(self)@.on(old(market_order)@.side.opposite()),
                old(market_order)@.trader_id,
                old(market_order)@.size,
            ),
            final(self).wf(),
            final(self)@ == place_market(old(self)@, old(market_order)@),
            final(market_order)@ == old(market_order)@.with_size(
                (old(market_order)@.size - swept(
                    old(self)@.on(old(market_order)@.side.opposite()),
                    old(market_order)@.size,
                )) as nat,
            ),
    {
        match market_order.get_order_type() {
            BidorAsk::Bid => self.asks.fill_market_order(market_order),
            BidorAsk::Ask => self.bids.fill_market_order(market_order),
        }
    }

    /// Matches `market_order` against the level of the other side that
    /// stands at the order's own price, if there is one, and puts what is
    /// left of the order to rest on its own side. `market_order` keeps the
    /// size that was left.
    pub fn fill_limit_order(&mut self, market_order: &mut Order) -> (fills: Vec<Fill>)
        requires
            old(self).wf(),
        ensures
            fill_views(fills@) == fills_at(
                old(self)@.on(old(market_order)@.side.opposite()),
                old(market_order)@.price,
                old(market_order)@.side.opposite(),
                old(market_order)@.trader_id,
                old(market_order)@.size,
            ),
            final(self).wf(),
            final(market_order)@ == old(market_order)@.with_size(
                (old(market_order)@.size - matched_at(
                    old(self)@.on(old(market_order)@.side.opposite()),
                    old(market_order)@.price,
                    old(market_order)@.side.opposite(),
                    old(market_order)@.size,
                )) as nat,
            ),
            final(self)@ == place_limit(old(self)@, old(market_order)@),
    {
        let price = market_order.get_price();
        let fills = match market_order.get_order_type() {
            BidorAsk::Bid => self.asks.fill_order_at(price, market_order),
            BidorAsk::Ask => self.bids.fill_order_at(price, market_order),
        };
        if !market_order.is_filled() {
            self.add_order(market_order.clone());
        }
        fills
    }

    /// Takes the whole level at `price` off `bid_or_ask`, if there is one.
    pub fn remove_price_level(&mut self, price: Price, bid_or_ask: BidorAsk) -> (removed: Option<
        Limit,
    >)
        requires
            old(self).wf(),
        ensures
            final(self).wf(),
            removed.is_some() <==> has_level(old(self)@.on(bid_or_ask), price, bid_or_ask),
            removed.is_some() ==> removed.unwrap()@ == old(self)@.on(bid_or_ask)[rank(
                old(self)@.on(bid_or_ask),
                price,
                bid_or_ask,
            ) as int] && removed.unwrap().wf(),
            final(self)@ == drop_in(old(self)@, price, bid_or_ask),
    {
        match bid_or_ask {
            BidorAsk::Bid => self.bids.remove_price_level(price),
            BidorAsk::Ask => self.asks.remove_price_level(price),
        }
    }

    /// The level at `price` on `bid_or_ask`, if there is one.
    pub fn get_price_level(&self, price: Price, bid_or_ask: BidorAsk) -> (found: Option<&Limit>)
        requires
            self.wf(),
        ensures
            found.is_some() <==> has_level(self@.on(bid_or_ask), price, bid_or_ask),
            found.is_some() ==> found.unwrap()@ == self@.on(bid_or_ask)[rank(
                self@.on(bid_or_ask),
                price,
                bid_or_ask,
            ) as int] && found.unwrap().wf(),
    {
        match bid_or_ask {
            BidorAsk::Bid => self.bids.get_price_level(price),
            BidorAsk::Ask => self.asks.get_price_level(price),
        }
    }

    /// Takes the oldest order that `trader_id` has resting at `price` on
    /// `bid_or_ask` out of the book, if there is one.
    pub fn cancel_order(&mut self, price: Price, bid_or_ask: BidorAsk, trader_id: &String) -> (cancelled:
        Option<Order>)
        requires
            old(self).wf(),
        ensures
            final(self).wf(),
            final(self)@ == cancel_in(old(self)@, price, bid_or_ask, trader_id@),
            cancelled.is_some() <==> has_order(
                old(self)@.on(bid_or_ask),
                price,
                bid_or_ask,
                trader_id@,
            ),
            cancelled.is_some() ==> cancelled.unwrap()@ == oldest_order(
                old(self)@.on(bid_or_ask),
                price,
                bid_or_ask,
                trader_id@,
            ),
    {
        match bid_or_ask {
            BidorAsk::Bid => self.bids.cancel_order(price, trader_id),
            BidorAsk::Ask => self.asks.cancel_order(price, trader_id),
        }
    }

    /// The best price on `bid_or_ask`: the lowest ask or the highest bid.
    pub fn best_price(&self, bid_or_ask: BidorAsk) -> (best: Option<Price>)
        requires
            self.wf(),
        ensures
            self@.on(bid_or_ask).len() == 0 ==> best.is_none(),
            self@.on(bid_or_ask).len() > 0 ==> best == Some(self@.on(bid_or_ask)[0].price),
    {
        match bid_or_ask {
            BidorAsk::Bid => self.bids.best_price(),
            BidorAsk::Ask => self.asks.best_price(),
        }
    }
    /// The prices at which orders rest on `bid_or_ask`, best first.
    pub fn prices(&self, bid_or_ask: BidorAsk) -> (prices: Vec<Price>)
        requires
            self.wf(),
        ensures
            prices@.len() == self@.on(bid_or_ask).len(),
            forall|i: int|
                0 <= i < prices@.len() ==> #[trigger] prices@[i] == self@.on(bid_or_ask)[i].price,
    {
        match bid_or_ask {
            BidorAsk::Bid => self.bids.prices(),
            BidorAsk::Ask => self.asks.prices(),
        }
    }
}

} // verus!
