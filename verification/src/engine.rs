//! The matching engine: a registry of order books, one for each trading
//! pair, and the door through which orders reach them.

use vstd::prelude::*;
use crate::book_side::{fills_at, has_level, has_order, oldest_order, rank, sweep_fills};
use crate::error::EngineError;
use crate::fill::{fill_views, Fill};
use crate::limit::shows;
use crate::order::{BidorAsk, Order};
use crate::orderbook::{cancel_in, place_limit, place_market, BookView, Orderbook};
use crate::price::Price;

verus! {

/// A trading pair as a value: the two symbols, base first.
pub type PairView = (Seq<char>, Seq<char>);

/// The instrument that a book trades: a base symbol priced in a quote
/// symbol. Two pairs are the same when both symbols are, in this order.
#[derive(Debug)]
pub struct TradingPair {
    base: String,
    quote: String,
}

impl View for TradingPair {
    type V = PairView;

    closed spec fn view(&self) -> PairView {
        (self.base@, self.quote@)
    }
}

impl TradingPair {
    /// The pair of `base` priced in `quote`.
    pub fn new(base: String, quote: String) -> (pair: TradingPair)
        ensures
            pair@ == (base@, quote@),
    {
        TradingPair { base, quote }
    }

    /// Whether `other` names the same two symbols in the same order.
    pub fn same_as(&self, other: &TradingPair) -> (same: bool)
        ensures
            same == (self@ == other@),
    {
        self.base == other.base && self.quote == other.quote
    }
}

impl Clone for TradingPair {
    fn clone(&self) -> (pair: TradingPair)
        ensures
            pair@ == self@,
    {
        TradingPair { base: self.base.clone(), quote: self.quote.clone() }
    }
}

/// A registered pair and its book.
#[derive(Debug)]
struct Market {
    pair: TradingPair,
    book: Orderbook,
}

/// The registry after `pair` has been offered for registration: a pair that
/// is new gets an empty book, one that is known keeps the book it has.
pub open spec fn registered(markets: Map<PairView, BookView>, pair: PairView) -> Map<
    PairView,
    BookView,
> {
    if markets.contains_key(pair) {
        markets
    } else {
        markets.insert(pair, BookView::empty())
    }
}

/// Registering a pair a second time finds it known and changes nothing,
/// whatever has come to rest in its book since.
pub proof fn lemma_registration_guard(markets: Map<PairView, BookView>, pair: PairView)
    ensures
        registered(markets, pair).contains_key(pair),
        markets.contains_key(pair) ==> registered(markets, pair) == markets,
        registered(registered(markets, pair), pair) == registered(markets, pair),
{
}

/// The books of all registered trading pairs.
#[derive(Debug)]
pub struct MatchingEngine {
    markets: Vec<Market>,
}

impl View for MatchingEngine {
    type V = Map<PairView, BookView>;

    /// The book of each registered pair.
    closed spec fn view(&self) -> Map<PairView, BookView> {
        Map::new(
            |pair: PairView| self.lists(pair),
            |pair: PairView| self.markets@[self.slot(pair)].book@,
        )
    }
}

impl MatchingEngine {
    /// Whether some market of the registry is for `pair`.
    closed spec fn lists(&self, pair: PairView) -> bool {
        exists|i: int| 0 <= i < self.markets@.len() && (#[trigger] self.markets@[i]).pair@ == pair
    }

    /// The position of the market for `pair`.
    closed spec fn slot(&self, pair: PairView) -> int {
        choose|i: int| 0 <= i < self.markets@.len() && (#[trigger] self.markets@[i]).pair@ == pair
    }

    /// No pair is registered twice, and every book is consistent.
    pub closed spec fn inv(&self) -> bool {
        &&& forall|i: int, j: int|
            0 <= i < j < self.markets@.len() ==> (#[trigger] self.markets@[i]).pair@ != (
            #[trigger] self.markets@[j]).pair@
        &&& forall|i: int| 0 <= i < self.markets@.len() ==> (#[trigger] self.markets@[i]).book.wf()
    }

    /// The registry is consistent within, and every book in it is valid.
    pub open spec fn wf(&self) -> bool {
        &&& self.inv()
        &&& forall|pair: PairView| #[trigger] self@.contains_key(pair) ==> self@[pair].valid()
    }

    /// The market at position `i` is the one that the registry shows for its
    /// pair.
    proof fn lemma_slot(&self, i: int)
        requires
            self.inv(),
            0 <= i < self.markets@.len(),
        ensures
            self@.contains_key(self.markets@[i].pair@),
            self.slot(self.markets@[i].pair@) == i,
            self@[self.markets@[i].pair@] == self.markets@[i].book@,
    {
        let pair = self.markets@[i].pair@;
        let j = self.slot(pair);
        assert(self.lists(pair));
        if j < i {
            assert(self.markets@[j].pair@ != self.markets@[i].pair@);
        } else if i < j {
            assert(self.markets@[i].pair@ != self.markets@[j].pair@);
        }
    }

    /// A consistent registry holds valid books only.
    proof fn lemma_inv_wf(&self)
        requires
            self.inv(),
        ensures
            self.wf(),
    {
        assert forall|pair: PairView| #[trigger] self@.contains_key(pair) implies self@[pair].valid() by {
            let i = self.slot(pair);
            assert(self.markets@[i].book.wf());
        }
    }

    /// An engine with no market.
    pub fn new() -> (engine: MatchingEngine)
        ensures
            engine.wf(),
            engine@ == Map::<PairView, BookView>::empty(),
    {
        let engine = MatchingEngine { markets: Vec::new() };
        assert(engine@ =~= Map::<PairView, BookView>::empty());
        engine
    }

    /// The position of the market for `pair`, if it is registered.
    fn find(&self, pair: &TradingPair) -> (found: Option<usize>)
        requires
            self.inv(),
        ensures
            found.is_some() <==> self@.contains_key(pair@),
            found.is_some() ==> found.unwrap() < self.markets@.len() && self.markets@[found.unwrap() as int].pair@
                == pair@ && self@[pair@] == self.markets@[found.unwrap() as int].book@,
    {
        let mut i: usize = 0;
        while i < self.markets.len()
            invariant
                self.inv(),
                i <= self.markets@.len(),
                forall|j: int| 0 <= j < i ==> (#[trigger] self.markets@[j]).pair@ != pair@,
            decreases self.markets@.len() - i,
        {
            if self.markets[i].pair.same_as(pair) {
                proof {
                    self.lemma_slot(i as int);
                }
                return Some(i);
            }
            i = i + 1;
        }
        None
    }

    /// Whether `pair` is registered.
    pub fn has_market(&self, pair: &TradingPair) -> (known: bool)
        requires
            self.wf(),
        ensures
            known == self@.contains_key(pair@),
    {
        self.find(pair).is_some()
    }

    /// Registers `pair` with an empty book. A pair that is registered
    /// already is refused, and keeps its book.
    pub fn add_new_market(&mut self, pair: TradingPair) -> (result: Result<(), EngineError>)
        requires
            old(self).wf(),
        ensures
            final(self).wf(),
            final(self)@ == registered(old(self)@, pair@),
            old(self)@.contains_key(pair@) ==> result == Err::<(), EngineError>(
                EngineError::MarketAlreadyExists,
            ),
            !old(self)@.contains_key(pair@) ==> result == Ok::<(), EngineError>(()),
    {
        if self.find(&pair).is_some() {
            return Err(EngineError::MarketAlreadyExists);
        }
        let ghost before = *self;
        self.markets.push(Market { pair, book: Orderbook::new() });
        proof {
            let n = before.markets@.len() as int;
            assert forall|i: int, j: int| 0 <= i < j < self.markets@.len() implies (
            #[trigger] self.markets@[i]).pair@ != (#[trigger] self.markets@[j]).pair@ by {
                if j == n {
                    assert(self.markets@[i] == before.markets@[i]);
                    assert(before@.contains_key(before.markets@[i].pair@)) by {
                        before.lemma_slot(i);
                    }
                } else {
                    assert(before.markets@[i].pair@ != before.markets@[j].pair@);
                }
            }
            assert(self.inv());
            assert forall|k: PairView| #[trigger]
                self@.contains_key(k) == before@.insert(pair@, BookView::empty()).contains_key(
                    k,
                ) by {
                if before@.contains_key(k) {
                    let i = before.slot(k);
                    assert(self.markets@[i].pair@ == k);
                }
                if k == pair@ {
                    assert(self.markets@[n].pair@ == k);
                }
                if self@.contains_key(k) {
                    let i = self.slot(k);
                    if i < n {
                        assert(before.markets@[i].pair@ == k);
                    }
                }
            }
            assert forall|k: PairView| #[trigger] self@.contains_key(k) implies self@[k]
                == before@.insert(pair@, BookView::empty())[k] by {
                let i = self.slot(k);
                self.lemma_slot(i);
                if i < n {
                    assert(self.markets@[i] == before.markets@[i]);
                    before.lemma_slot(i);
                }
            }
            assert(self@ =~= before@.insert(pair@, BookView::empty()));
            self.lemma_inv_wf();
        }
        Ok(())
    }
    /// Changing the book of one market changes the registry at that pair
    /// alone.
    proof fn lemma_book_changed(before: MatchingEngine, after: MatchingEngine, i: int)
        requires
            before.inv(),
            0 <= i < before.markets@.len(),
            after.markets@.len() == before.markets@.len(),
            forall|j: int|
                0 <= j < before.markets@.len() && j != i ==> (#[trigger] after.markets@[j])
                    == before.markets@[j],
            after.markets@[i].pair@ == before.markets@[i].pair@,
            after.markets@[i].book.wf(),
        ensures
            after.wf(),
            after@ == before@.insert(before.markets@[i].pair@, after.markets@[i].book@),
    {
        assert forall|j: int| 0 <= j < after.markets@.len() implies (#[trigger] after.markets@[j]).pair@
            == before.markets@[j].pair@ by {}
        assert forall|a: int, b: int| 0 <= a < b < after.markets@.len() implies (
        #[trigger] after.markets@[a]).pair@ != (#[trigger] after.markets@[b]).pair@ by {
            assert(before.markets@[a].pair@ != before.markets@[b].pair@);
        }
        assert forall|j: int| 0 <= j < after.markets@.len() implies (
        #[trigger] after.markets@[j]).book.wf() by {
            if j != i {
                assert(before.markets@[j].book.wf());
            }
        }
        let changed = before@.insert(before.markets@[i].pair@, after.markets@[i].book@);
        assert forall|k: PairView| #[trigger] after@.contains_key(k) == changed.contains_key(k) by {
            if before@.contains_key(k) {
                let j = before.slot(k);
                assert(after.markets@[j].pair@ == k);
            }
            if k == before.markets@[i].pair@ {
                assert(after.markets@[i].pair@ == k);
            }
            if after@.contains_key(k) {
                let j = after.slot(k);
                assert(before.markets@[j].pair@ == k);
            }
        }
        assert forall|k: PairView| #[trigger] after@.contains_key(k) implies after@[k] == changed[k] by {
            let j = after.slot(k);
            after.lemma_slot(j);
            before.lemma_slot(j);
        }
        assert(after@ =~= changed);
        after.lemma_inv_wf();
    }

    /// Places a limit order at `price` in the book of `pair`: the order is
    /// matched against the level of the other side at that price, and what
    /// is left of it comes to rest. Returns the fills that were made, in the
    /// order in which they were made. An order for a pair that is not
    /// registered is refused, and nothing changes.
    pub fn place_limit_order(&mut self, pair: &TradingPair, price: Price, order: Order) -> (result:
        Result<Vec<Fill>, EngineError>)
        requires
            old(self).wf(),
        ensures
            final(self).wf(),
            !old(self)@.contains_key(pair@) ==> result == Err::<Vec<Fill>, EngineError>(
                EngineError::MarketDoesNotExist,
            ) && final(self)@ == old(self)@,
            old(self)@.contains_key(pair@) ==> result.is_ok() && fill_views(result.unwrap()@)
                == fills_at(
                old(self)@[pair@].on(order@.side.opposite()),
                price,
                order@.side.opposite(),
                order@.trader_id,
                order@.size,
            ) && final(self)@ == old(self)@.insert(
                pair@,
                place_limit(old(self)@[pair@], order@.with_price(price)),
            ),
    {
        match self.find(pair) {
            None => Err(EngineError::MarketDoesNotExist),
            Some(i) => {
                let ghost before = *self;
                let mut incoming = order.at_price(price);
                let fills = self.markets[i].book.fill_limit_order(&mut incoming);
                proof {
                    Self::lemma_book_changed(before, *self, i as int);
                }
                Ok(fills)
            },
        }
    }

    /// Places a market order in the book of `pair`: the order walks the
    /// other side from the best price on, and what is left of it is
    /// dropped. Returns the fills that were made, in the order in which they
    /// were made. An order for a pair that is not registered is refused,
    /// and nothing changes.
    pub fn place_market_order(&mut self, pair: &TradingPair, order: Order) -> (result: Result<
        Vec<Fill>,
        EngineError,
    >)
        requires
            old(self).wf(),
        ensures
            final(self).wf(),
            !old(self)@.contains_key(pair@) ==> result == Err::<Vec<Fill>, EngineError>(
                EngineError::MarketDoesNotExist,
            ) && final(self)@ == old(self)@,
            old(self)@.contains_key(pair@) ==> result.is_ok() && fill_views(result.unwrap()@)
                == sweep_fills(
                old(self)@[pair@].on(order@.side.opposite()),
                order@.trader_id,
                order@.size,
            ) && final(self)@ == old(self)@.insert(pair@, place_market(old(self)@[pair@], order@)),
    {
        match self.find(pair) {
            None => Err(EngineError::MarketDoesNotExist),
            Some(i) => {
                let ghost before = *self;
                let mut incoming = order;
                let fills = self.markets[i].book.fill_market_order(&mut incoming);
                proof {
                    Self::lemma_book_changed(before, *self, i as int);
                }
                Ok(fills)
            },
        }
    }

    /// Takes the oldest order that `trader_id` has resting at `price` on
    /// `bid_or_ask` out of the book of `pair`, and returns it if there was
    /// one. A pair that is not registered is refused.
    pub fn cancel_order(
        &mut self,
        pair: &TradingPair,
        price: Price,
        bid_or_ask: BidorAsk,
        trader_id: &String,
    ) -> (result: Result<Option<Order>, EngineError>)
        requires
            old(self).wf(),
        ensures
            final(self).wf(),
            !old(self)@.contains_key(pair@) ==> result == Err::<Option<Order>, EngineError>(
                EngineError::MarketDoesNotExist,
            ) && final(self)@ == old(self)@,
            old(self)@.contains_key(pair@) ==> result.is_ok() && final(self)@ == old(self)@.insert(
                pair@,
                cancel_in(old(self)@[pair@], price, bid_or_ask, trader_id@),
            ) && (result.unwrap().is_some() <==> has_order(
                old(self)@[pair@].on(bid_or_ask),
                price,
                bid_or_ask,
                trader_id@,
            )) && (result.unwrap().is_some() ==> result.unwrap().unwrap()@ == oldest_order(
                old(self)@[pair@].on(bid_or_ask),
                price,
                bid_or_ask,
                trader_id@,
            )),
    {
        match self.find(pair) {
            None => Err(EngineError::MarketDoesNotExist),
            Some(i) => {
                let ghost before = *self;
                let cancelled = self.markets[i].book.cancel_order(price, bid_or_ask, trader_id);
                proof {
                    Self::lemma_book_changed(before, *self, i as int);
                }
                Ok(cancelled)
            },
        }
    }

    /// The best price on `bid_or_ask` in the book of `pair`, if any order
    /// rests there. A pair that is not registered is refused.
    pub fn best_price(&self, pair: &TradingPair, bid_or_ask: BidorAsk) -> (result: Result<
        Option<Price>,
        EngineError,
    >)
        requires
            self.wf(),
        ensures
            !self@.contains_key(pair@) ==> result == Err::<Option<Price>, EngineError>(
                EngineError::MarketDoesNotExist,
            ),
            self@.contains_key(pair@) ==> result == Ok::<Option<Price>, EngineError>(
                if self@[pair@].on(bid_or_ask).len() == 0 {
                    None
                } else {
                    Some(self@[pair@].on(bid_or_ask)[0].price)
                },
            ),
    {
        match self.find(pair) {
            None => Err(EngineError::MarketDoesNotExist),
            Some(i) => Ok(self.markets[i].book.best_price(bid_or_ask)),
        }
    }
    /// The price level at `price` on `bid_or_ask` in the book of `pair`, if
    /// there is one: its price, and the trader and remaining size of each of
    /// its orders, oldest first. A pair that is not registered is refused.
    pub fn price_level_snapshot(&self, pair: &TradingPair, price: Price, bid_or_ask: BidorAsk) -> (result:
        Result<Option<(Price, Vec<(String, u64)>)>, EngineError>)
        requires
            self.wf(),
        ensures
            !self@.contains_key(pair@) ==> result == Err::<
                Option<(Price, Vec<(String, u64)>)>,
                EngineError,
            >(EngineError::MarketDoesNotExist),
            self@.contains_key(pair@) ==> result.is_ok() && (result.unwrap().is_some() <==> has_level(
                self@[pair@].on(bid_or_ask),
                price,
                bid_or_ask,
            )),
            self@.contains_key(pair@) && result.unwrap().is_some() ==> result.unwrap().unwrap().0
                == price && shows(
                result.unwrap().unwrap().1@,
                self@[pair@].on(bid_or_ask)[rank(self@[pair@].on(bid_or_ask), price, bid_or_ask) as int].orders,
            ),
    {
        match self.find(pair) {
            None => Err(EngineError::MarketDoesNotExist),
            Some(i) => match self.markets[i].book.get_price_level(price, bid_or_ask) {
                None => Ok(None),
                Some(level) => Ok(Some((level.get_price(), level.snapshot()))),
            },
        }
    }
}

} // verus!
