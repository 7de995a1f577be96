//! One side of an order book: its price levels, found by price and walked
//! from the best price to the worst.
//!
//! The levels live in a map keyed by the price's tick count; beside it a
//! list holds the same prices, best first. Every operation that adds or
//! drops a price changes both, so the list never names a price that the map
//! lacks, nor the other way round.

use vstd::prelude::*;
use std::collections::HashMap;
use crate::fill::{fill_views, fills_of, Fill, FillView};
use crate::limit::{all_open, fill_queue, first_of, matched, total_size, Limit, LimitView};
use crate::limit::{lemma_fill_exhausts, lemma_fill_keeps_side};
use crate::order::{BidorAsk, Order, OrderView};
use crate::price::Price;

verus! {

broadcast use vstd::std_specs::hash::group_hash_axioms;

/// Whether price `a` comes before price `b` on `side`: the cheaper ask, the
/// higher bid.
pub open spec fn better(a: Price, b: Price, side: BidorAsk) -> bool {
    match side {
        BidorAsk::Ask => a.ticks < b.ticks,
        BidorAsk::Bid => a.ticks > b.ticks,
    }
}

/// What a side must be: prices strictly from best to worst, so that none
/// occurs twice, and at each price a level of that price that is not empty
/// and holds only open orders of this side.
pub open spec fn side_valid(levels: Seq<LimitView>, side: BidorAsk) -> bool {
    &&& forall|i: int, j: int|
        0 <= i < j < levels.len() ==> better(
            (#[trigger] levels[i]).price,
            (#[trigger] levels[j]).price,
            side,
        )
    &&& forall|i: int|
        0 <= i < levels.len() ==> (#[trigger] levels[i]).orders.len() > 0 && all_open(
            levels[i].orders,
        ) && levels[i].holds_only(side)
}

/// The number of levels at the front of `levels` whose price is strictly
/// better than `price`. On a valid side these are all the levels with a
/// better price, so this is where a level at `price` stands or would stand.
pub open spec fn rank(levels: Seq<LimitView>, price: Price, side: BidorAsk) -> nat
    decreases levels.len(),
{
    if levels.len() == 0 {
        0
    } else if better(levels[0].price, price, side) {
        1 + rank(levels.skip(1), price, side)
    } else {
        0
    }
}

/// Whether `levels` has a level at `price`.
pub open spec fn has_level(levels: Seq<LimitView>, price: Price, side: BidorAsk) -> bool {
    let r = rank(levels, price, side) as int;
    r < levels.len() && levels[r].price == price
}

/// The side after `order` has come to rest on it: at the back of the level at
/// its price where there is one, else alone in a new level that stands where
/// the order of prices puts it.
pub open spec fn rest_order(levels: Seq<LimitView>, order: OrderView, side: BidorAsk) -> Seq<
    LimitView,
> {
    let r = rank(levels, order.price, side) as int;
    if has_level(levels, order.price, side) {
        levels.update(r, LimitView { price: order.price, orders: levels[r].orders.push(order) })
    } else {
        levels.insert(r, LimitView { price: order.price, orders: seq![order] })
    }
}

/// The side without its level at `price`.
pub open spec fn drop_level(levels: Seq<LimitView>, price: Price, side: BidorAsk) -> Seq<
    LimitView,
> {
    if has_level(levels, price, side) {
        levels.remove(rank(levels, price, side) as int)
    } else {
        levels
    }
}

/// All that rests on the side.
pub open spec fn book_volume(levels: Seq<LimitView>) -> nat
    decreases levels.len(),
{
    if levels.len() == 0 {
        0
    } else {
        total_size(levels[0].orders) + book_volume(levels.skip(1))
    }
}

/// The side after an incoming quantity `qty` has walked it from the best
/// price on: every level that `qty` covers whole is gone, the first one that
/// it covers in part has been filled from the front of its queue, and the
/// levels behind that one are as they were.
pub open spec fn sweep(levels: Seq<LimitView>, qty: nat) -> Seq<LimitView>
    decreases levels.len(),
{
    if levels.len() == 0 || qty == 0 {
        levels
    } else if qty >= total_size(levels[0].orders) {
        sweep(levels.skip(1), (qty - total_size(levels[0].orders)) as nat)
    } else {
        levels.update(
            0,
            LimitView { price: levels[0].price, orders: fill_queue(levels[0].orders, qty) },
        )
    }
}

/// The quantity that changes hands when `qty` walks the side: all of `qty`,
/// or all that rests, whichever is less.
pub open spec fn swept(levels: Seq<LimitView>, qty: nat) -> nat {
    if qty <= book_volume(levels) {
        qty
    } else {
        book_volume(levels)
    }
}

/// The side after an incoming quantity `qty` has been matched against the
/// level at `price` and no other: that level is filled from the front of its
/// queue, and leaves the side if nothing is left in it.
pub open spec fn fill_at(levels: Seq<LimitView>, price: Price, side: BidorAsk, qty: nat) -> Seq<
    LimitView,
> {
    let r = rank(levels, price, side) as int;
    if has_level(levels, price, side) {
        let left = fill_queue(levels[r].orders, qty);
        if left.len() == 0 {
            levels.remove(r)
        } else {
            levels.update(r, LimitView { price, orders: left })
        }
    } else {
        levels
    }
}

/// The fills that come of a quantity `qty` of `taker` walking the side from
/// the best price on: those of the best level, then those of the next for
/// what that level could not give, and so on.
pub open spec fn sweep_fills(levels: Seq<LimitView>, taker: Seq<char>, qty: nat) -> Seq<FillView>
    decreases levels.len(),
{
    if levels.len() == 0 || qty == 0 {
        Seq::empty()
    } else {
        fills_of(levels[0].orders, taker, qty) + sweep_fills(
            levels.skip(1),
            taker,
            (qty - matched(levels[0].orders, qty)) as nat,
        )
    }
}

/// The fills that come of a quantity `qty` of `taker` meeting the level at
/// `price`.
pub open spec fn fills_at(
    levels: Seq<LimitView>,
    price: Price,
    side: BidorAsk,
    taker: Seq<char>,
    qty: nat,
) -> Seq<FillView> {
    if has_level(levels, price, side) {
        fills_of(levels[rank(levels, price, side) as int].orders, taker, qty)
    } else {
        Seq::empty()
    }
}

/// The quantity that changes hands when `qty` meets the level at `price`.
pub open spec fn matched_at(levels: Seq<LimitView>, price: Price, side: BidorAsk, qty: nat) -> nat {
    if has_level(levels, price, side) {
        matched(levels[rank(levels, price, side) as int].orders, qty)
    } else {
        0
    }
}

/// Whether `trader` has an order resting at `price`.
pub open spec fn has_order(
    levels: Seq<LimitView>,
    price: Price,
    side: BidorAsk,
    trader: Seq<char>,
) -> bool {
    let r = rank(levels, price, side) as int;
    has_level(levels, price, side) && first_of(levels[r].orders, trader) < levels[r].orders.len()
}

/// The oldest order that `trader` has resting at `price`.
pub open spec fn oldest_order(
    levels: Seq<LimitView>,
    price: Price,
    side: BidorAsk,
    trader: Seq<char>,
) -> OrderView
    recommends
        has_order(levels, price, side, trader),
{
    let orders = levels[rank(levels, price, side) as int].orders;
    orders[first_of(orders, trader) as int]
}

/// The side after the oldest order of `trader` at `price` has been taken
/// out; its level leaves the side if that was its last order.
pub open spec fn cancel_at(
    levels: Seq<LimitView>,
    price: Price,
    side: BidorAsk,
    trader: Seq<char>,
) -> Seq<LimitView> {
    let r = rank(levels, price, side) as int;
    if has_order(levels, price, side, trader) {
        let left = levels[r].orders.remove(first_of(levels[r].orders, trader) as int);
        if left.len() == 0 {
            levels.remove(r)
        } else {
            levels.update(r, LimitView { price, orders: left })
        }
    } else {
        levels
    }
}

/// On a side whose first `r` levels are better than `price` and whose next
/// level, if any, is not, the rank of `price` is `r`.
pub proof fn lemma_rank_is(levels: Seq<LimitView>, price: Price, side: BidorAsk, r: int)
    requires
        0 <= r <= levels.len(),
        forall|j: int| 0 <= j < r ==> better((#[trigger] levels[j]).price, price, side),
        r < levels.len() ==> !better(levels[r].price, price, side),
    ensures
        rank(levels, price, side) == r,
    decreases r,
{
    if r > 0 {
        let rest = levels.skip(1);
        assert forall|j: int| 0 <= j < r - 1 implies better(
            (#[trigger] rest[j]).price,
            price,
            side,
        ) by {
            assert(rest[j] == levels[j + 1]);
        }
        lemma_rank_is(rest, price, side, r - 1);
    }
}

/// The rank of a price never exceeds the number of levels, every level
/// before it is strictly better than the price, and the level at it is not.
pub proof fn lemma_rank_bounds(levels: Seq<LimitView>, price: Price, side: BidorAsk)
    ensures
        rank(levels, price, side) <= levels.len(),
        forall|j: int|
            0 <= j < rank(levels, price, side) ==> better(
                (#[trigger] levels[j]).price,
                price,
                side,
            ),
        rank(levels, price, side) < levels.len() ==> !better(
            levels[rank(levels, price, side) as int].price,
            price,
            side,
        ),
    decreases levels.len(),
{
    if levels.len() > 0 && better(levels[0].price, price, side) {
        let rest = levels.skip(1);
        lemma_rank_bounds(rest, price, side);
        assert forall|j: int| 0 <= j < rank(levels, price, side) implies better(
            (#[trigger] levels[j]).price,
            price,
            side,
        ) by {
            if j > 0 {
                assert(levels[j] == rest[j - 1]);
            }
        }
        if rank(levels, price, side) < levels.len() {
            assert(levels[rank(levels, price, side) as int] == rest[rank(rest, price, side) as int]);
        }
    }
}

/// On a valid side a price has a level exactly when some level carries it,
/// and then only the level at its rank does.
pub proof fn lemma_has_level(levels: Seq<LimitView>, price: Price, side: BidorAsk)
    requires
        side_valid(levels, side),
    ensures
        has_level(levels, price, side) <==> exists|i: int|
            0 <= i < levels.len() && (#[trigger] levels[i]).price == price,
        forall|i: int|
            0 <= i < levels.len() && (#[trigger] levels[i]).price == price ==> i == rank(
                levels,
                price,
                side,
            ),
{
    lemma_rank_bounds(levels, price, side);
    let r = rank(levels, price, side) as int;
    assert forall|i: int| 0 <= i < levels.len() && (#[trigger] levels[i]).price == price implies i
        == r by {
        if i < r {
            assert(better(levels[i].price, price, side));
        } else if i > r {
            assert(better(levels[r].price, levels[i].price, side));
        }
    }
    if has_level(levels, price, side) {
        assert(levels[r].price == price);
    }
}

/// A valid side stays valid when one of its levels is taken out.
pub proof fn lemma_remove_valid(levels: Seq<LimitView>, side: BidorAsk, r: int)
    requires
        side_valid(levels, side),
        0 <= r < levels.len(),
    ensures
        side_valid(levels.remove(r), side),
{
    let left = levels.remove(r);
    assert forall|i: int, j: int| 0 <= i < j < left.len() implies better(
        (#[trigger] left[i]).price,
        (#[trigger] left[j]).price,
        side,
    ) by {
        let a = if i < r { i } else { i + 1 };
        let b = if j < r { j } else { j + 1 };
        assert(better(levels[a].price, levels[b].price, side));
    }
    assert forall|i: int| 0 <= i < left.len() implies (#[trigger] left[i]).orders.len() > 0
        && all_open(left[i].orders) && left[i].holds_only(side) by {
        let a = if i < r { i } else { i + 1 };
        assert(left[i] == levels[a]);
    }
}

/// A valid side stays valid when one of its levels gives way to another
/// level of the same price that is not empty and holds only open orders of
/// the side.
pub proof fn lemma_update_valid(levels: Seq<LimitView>, side: BidorAsk, r: int, level: LimitView)
    requires
        side_valid(levels, side),
        0 <= r < levels.len(),
        level.price == levels[r].price,
        level.orders.len() > 0,
        all_open(level.orders),
        level.holds_only(side),
    ensures
        side_valid(levels.update(r, level), side),
{
    let now = levels.update(r, level);
    assert forall|i: int, j: int| 0 <= i < j < now.len() implies better(
        (#[trigger] now[i]).price,
        (#[trigger] now[j]).price,
        side,
    ) by {
        assert(better(levels[i].price, levels[j].price, side));
    }
    assert forall|i: int| 0 <= i < now.len() implies (#[trigger] now[i]).orders.len() > 0
        && all_open(now[i].orders) && now[i].holds_only(side) by {
        if i != r {
            assert(now[i] == levels[i]);
        }
    }
}

/// The position of a trader's oldest order is within the queue exactly when
/// the trader has an order there, and the order at it is the trader's.
pub proof fn lemma_first_of_bounds(orders: Seq<OrderView>, trader: Seq<char>)
    ensures
        first_of(orders, trader) <= orders.len(),
        first_of(orders, trader) < orders.len() ==> orders[first_of(orders, trader) as int].trader_id
            == trader,
        forall|i: int| 0 <= i < first_of(orders, trader) ==> (#[trigger] orders[i]).trader_id != trader,
    decreases orders.len(),
{
    if orders.len() > 0 && orders[0].trader_id != trader {
        let rest = orders.skip(1);
        lemma_first_of_bounds(rest, trader);
        assert forall|i: int| 0 <= i < first_of(orders, trader) implies (#[trigger] orders[i]).trader_id
            != trader by {
            if i > 0 {
                assert(orders[i] == rest[i - 1]);
            }
        }
    }
}

/// One side of a book.
#[derive(Debug)]
pub struct BookSide {
    side: BidorAsk,
    levels: HashMap<u64, Limit>,
    sorted_keys: Vec<Price>,
}

impl View for BookSide {
    type V = Seq<LimitView>;

    /// The levels of the side, best price first.
    closed spec fn view(&self) -> Seq<LimitView> {
        Seq::new(self.sorted_keys@.len(), |i: int| self.levels@[self.sorted_keys@[i].ticks]@)
    }
}

impl BookSide {
    /// Which side of the book this is.
    pub closed spec fn side(&self) -> BidorAsk {
        self.side
    }

    /// The map and the list hold the same prices, the list strictly from
    /// best to worst, and each level stands under its own price.
    pub closed spec fn inv(&self) -> bool {
        &&& forall|i: int, j: int|
            0 <= i < j < self.sorted_keys@.len() ==> better(
                #[trigger] self.sorted_keys@[i],
                #[trigger] self.sorted_keys@[j],
                self.side,
            )
        &&& forall|k: u64| #[trigger]
            self.levels@.contains_key(k) ==> exists|i: int|
                0 <= i < self.sorted_keys@.len() && (#[trigger] self.sorted_keys@[i]).ticks == k
        &&& forall|i: int|
            0 <= i < self.sorted_keys@.len() ==> self.levels@.contains_key(
                (#[trigger] self.sorted_keys@[i]).ticks,
            ) && self.levels@[self.sorted_keys@[i].ticks]@.price == self.sorted_keys@[i]
    }

    /// The side is consistent within, and valid as a sequence of levels.
    pub open spec fn wf(&self) -> bool {
        self.inv() && side_valid(self@, self.side())
    }

    /// An empty side.
    pub fn new(side: BidorAsk) -> (book_side: BookSide)
        ensures
            book_side.wf(),
            book_side.side() == side,
            book_side@ == Seq::<LimitView>::empty(),
    {
        let book_side = BookSide { side, levels: HashMap::new(), sorted_keys: Vec::new() };
        assert(book_side@ =~= Seq::<LimitView>::empty());
        book_side
    }

    /// Whether `a` comes before `b` on this side.
    fn comes_before(&self, a: Price, b: Price) -> (before: bool)
        ensures
            before == better(a, b, self.side()),
    {
        match self.side {
            BidorAsk::Ask => a.ticks < b.ticks,
            BidorAsk::Bid => a.ticks > b.ticks,
        }
    }

    /// The position in the list of prices at which `price` stands or would
    /// stand.
    fn locate(&self, price: Price) -> (r: usize)
        requires
            self.wf(),
        ensures
            r == rank(self@, price, self.side()),
            r <= self.sorted_keys@.len(),
            self@.len() == self.sorted_keys@.len(),
            has_level(self@, price, self.side()) <==> r < self.sorted_keys@.len()
                && self.sorted_keys@[r as int] == price,
            has_level(self@, price, self.side()) <==> self.levels@.contains_key(price.ticks),
    {
        let mut r: usize = 0;
        while r < self.sorted_keys.len() && self.comes_before(self.sorted_keys[r], price)
            invariant
                r <= self.sorted_keys@.len(),
                forall|j: int| 0 <= j < r ==> better(#[trigger] self.sorted_keys@[j], price, self.side),
            decreases self.sorted_keys@.len() - r,
        {
            r = r + 1;
        }
        proof {
            let levels = self@;
            assert forall|j: int| 0 <= j < r implies better(
                (#[trigger] levels[j]).price,
                price,
                self.side,
            ) by {
                assert(levels[j].price == self.sorted_keys@[j]);
            }
            if r < levels.len() {
                assert(levels[r as int].price == self.sorted_keys@[r as int]);
            }
            lemma_rank_is(levels, price, self.side, r as int);
            if self.levels@.contains_key(price.ticks) {
                let i = choose|i: int|
                    0 <= i < self.sorted_keys@.len() && (#[trigger] self.sorted_keys@[i]).ticks
                        == price.ticks;
                assert(self.sorted_keys@[i] == price);
                assert(levels[i].price == price);
                lemma_has_level(levels, price, self.side);
            }
        }
        r
    }

    /// The best price of the side, if any order rests on it.
    pub fn best_price(&self) -> (best: Option<Price>)
        requires
            self.wf(),
        ensures
            self@.len() == 0 ==> best.is_none(),
            self@.len() > 0 ==> best == Some(self@[0].price),
    {
        if self.sorted_keys.len() == 0 {
            None
        } else {
            Some(self.sorted_keys[0])
        }
    }

    /// The prices at which orders rest on the side, best first.
    pub fn prices(&self) -> (prices: Vec<Price>)
        requires
            self.wf(),
        ensures
            prices@.len() == self@.len(),
            forall|i: int| 0 <= i < prices@.len() ==> #[trigger] prices@[i] == self@[i].price,
    {
        let mut prices: Vec<Price> = Vec::new();
        let mut i: usize = 0;
        while i < self.sorted_keys.len()
            invariant
                i <= self.sorted_keys@.len(),
                prices@ == self.sorted_keys@.take(i as int),
            decreases self.sorted_keys@.len() - i,
        {
            prices.push(self.sorted_keys[i]);
            assert(prices@ =~= self.sorted_keys@.take(i + 1));
            i = i + 1;
        }
        assert(prices@ =~= self.sorted_keys@);
        prices
    }

    /// The number of price levels on the side.
    pub fn depth(&self) -> (count: usize)
        ensures
            count == self@.len(),
    {
        self.sorted_keys.len()
    }

    /// The level at `price`, if there is one.
    pub fn get_price_level(&self, price: Price) -> (found: Option<&Limit>)
        requires
            self.wf(),
        ensures
            found.is_some() <==> has_level(self@, price, self.side()),
            found.is_some() ==> found.unwrap()@ == self@[rank(self@, price, self.side()) as int],
    {
        let ghost r = rank(self@, price, self.side());
        proof {
            lemma_rank_bounds(self@, price, self.side);
            lemma_has_level(self@, price, self.side);
            if self.levels@.contains_key(price.ticks) {
                let i = choose|i: int|
                    0 <= i < self.sorted_keys@.len() && (#[trigger] self.sorted_keys@[i]).ticks
                        == price.ticks;
                assert(self@[i].price == price);
            }
            if has_level(self@, price, self.side) {
                assert(self.sorted_keys@[r as int] == self@[r as int].price);
            }
        }
        self.levels.get(&price.ticks)
    }

    /// Puts `order` to rest on the side: at the back of the level at its
    /// price, or in a new level where none is there yet.
    pub fn add_order(&mut self, order: Order)
        requires
            old(self).wf(),
            order@.side == old(self).side(),
            order@.size > 0,
        ensures
            final(self).wf(),
            final(self).side() == old(self).side(),
            final(self)@ == rest_order(old(self)@, order@, old(self).side()),
    {
        let price = order.get_price();
        let r = self.locate(price);
        let ghost before = self@;
        let ghost keys = self.sorted_keys@;
        let ghost map = self.levels@;
        if r < self.sorted_keys.len() && self.sorted_keys[r].ticks == price.ticks {
            let mut level = self.levels.remove(&price.ticks).unwrap();
            assert(level@ == before[r as int]);
            level.add_order(order);
            let ghost grown = level@;
            self.levels.insert(price.ticks, level);
            proof {
                assert(self.levels@ =~= map.insert(price.ticks, level));
                assert forall|i: int| 0 <= i < keys.len() && i != r implies (#[trigger] keys[i]).ticks
                    != price.ticks by {
                    if i < r {
                        assert(better(keys[i], keys[r as int], self.side));
                    } else {
                        assert(better(keys[r as int], keys[i], self.side));
                    }
                }
                assert(self@ =~= before.update(r as int, grown));
                assert(grown.holds_only(self.side)) by {
                    assert(before[r as int].holds_only(self.side));
                }
            }
        } else {
            let mut level = Limit::new(price);
            level.add_order(order);
            let ghost fresh = level@;
            assert(fresh.orders =~= seq![order@]);
            self.sorted_keys.insert(r, price);
            self.levels.insert(price.ticks, level);
            proof {
                lemma_rank_bounds(before, price, self.side);
                assert(self.levels@ =~= map.insert(price.ticks, level));
                let now = self.sorted_keys@;
                assert(now =~= keys.insert(r as int, price));
                assert forall|i: int| 0 <= i < keys.len() implies (#[trigger] keys[i]).ticks
                    != price.ticks by {
                    assert(map.contains_key(keys[i].ticks));
                }
                assert forall|j: int| 0 <= j < r implies better(#[trigger] keys[j], price, self.side) by {
                    assert(before[j].price == keys[j]);
                }
                assert forall|j: int| r <= j < keys.len() implies better(
                    price,
                    #[trigger] keys[j],
                    self.side,
                ) by {
                    assert(before[r as int].price == keys[r as int]);
                    if j > r {
                        assert(better(keys[r as int], keys[j], self.side));
                    }
                }
                assert(self@ =~= before.insert(r as int, fresh));
                assert forall|k: u64| #[trigger] self.levels@.contains_key(k) implies exists|i: int|
                    0 <= i < now.len() && (#[trigger] now[i]).ticks == k by {
                    if k == price.ticks {
                        assert(now[r as int].ticks == k);
                    } else {
                        let i = choose|i: int| 0 <= i < keys.len() && (#[trigger] keys[i]).ticks == k;
                        if i < r {
                            assert(now[i].ticks == k);
                        } else {
                            assert(now[i + 1].ticks == k);
                        }
                    }
                }
            }
        }
    }
    /// Takes the level at position `r` out of the map; the list of prices
    /// still names it.
    fn take(&mut self, r: usize) -> (level: Limit)
        requires
            old(self).wf(),
            r < old(self).sorted_keys@.len(),
        ensures
            final(self).side == old(self).side,
            final(self).sorted_keys@ == old(self).sorted_keys@,
            final(self).levels@ == old(self).levels@.remove(old(self).sorted_keys@[r as int].ticks),
            level@ == old(self)@[r as int],
            level@.price == old(self).sorted_keys@[r as int],
            level.wf(),
            level@.orders.len() > 0,
            level@.holds_only(old(self).side),
    {
        let key = self.sorted_keys[r];
        assert(self.levels@.contains_key(self.sorted_keys@[r as int].ticks));
        assert(self@[r as int] == self.levels@[key.ticks]@);
        self.levels.remove(&key.ticks).unwrap()
    }

    /// Strikes the price at position `r`, whose level `take` took out, from
    /// the list.
    fn unlist(&mut self, r: usize, Ghost(prior): Ghost<BookSide>)
        requires
            prior.wf(),
            r < prior.sorted_keys@.len(),
            old(self).side == prior.side,
            old(self).sorted_keys@ == prior.sorted_keys@,
            old(self).levels@ == prior.levels@.remove(prior.sorted_keys@[r as int].ticks),
        ensures
            final(self).wf(),
            final(self).side() == prior.side(),
            final(self)@ == prior@.remove(r as int),
    {
        self.sorted_keys.remove(r);
        proof {
            let keys = prior.sorted_keys@;
            let now = self.sorted_keys@;
            let side = prior.side;
            assert(now =~= keys.remove(r as int));
            assert forall|i: int, j: int| 0 <= i < j < now.len() implies better(
                #[trigger] now[i],
                #[trigger] now[j],
                side,
            ) by {
                let a = if i < r { i } else { i + 1 };
                let b = if j < r { j } else { j + 1 };
                assert(better(keys[a], keys[b], side));
            }
            assert forall|i: int| 0 <= i < keys.len() && i != r implies (#[trigger] keys[i]).ticks
                != keys[r as int].ticks by {
                if i < r {
                    assert(better(keys[i], keys[r as int], side));
                } else {
                    assert(better(keys[r as int], keys[i], side));
                }
            }
            assert forall|k: u64| #[trigger] self.levels@.contains_key(k) implies exists|i: int|
                0 <= i < now.len() && (#[trigger] now[i]).ticks == k by {
                assert(prior.levels@.contains_key(k));
                let i = choose|i: int| 0 <= i < keys.len() && (#[trigger] keys[i]).ticks == k;
                if i < r {
                    assert(now[i].ticks == k);
                } else {
                    assert(now[i - 1].ticks == k);
                }
            }
            assert forall|i: int| 0 <= i < now.len() implies self.levels@.contains_key(
                (#[trigger] now[i]).ticks,
            ) && self.levels@[now[i].ticks]@.price == now[i] && self.levels@[now[i].ticks]@
                == prior@.remove(r as int)[i] by {
                let a = if i < r { i } else { i + 1 };
                assert(now[i] == keys[a]);
                assert(prior.levels@.contains_key(keys[a].ticks));
                assert(prior@[a] == prior.levels@[keys[a].ticks]@);
            }
            assert(self@ =~= prior@.remove(r as int));
            lemma_remove_valid(prior@, side, r as int);
        }
    }

    /// Puts `level` back under the price at position `r`, from where `take`
    /// took its earlier state.
    fn relist(&mut self, r: usize, level: Limit, Ghost(prior): Ghost<BookSide>)
        requires
            prior.wf(),
            r < prior.sorted_keys@.len(),
            old(self).side == prior.side,
            old(self).sorted_keys@ == prior.sorted_keys@,
            old(self).levels@ == prior.levels@.remove(prior.sorted_keys@[r as int].ticks),
            level@.price == prior.sorted_keys@[r as int],
            level@.orders.len() > 0,
            all_open(level@.orders),
            level@.holds_only(prior.side),
        ensures
            final(self).wf(),
            final(self).side() == prior.side(),
            final(self)@ == prior@.update(r as int, level@),
    {
        let key = self.sorted_keys[r];
        self.levels.insert(key.ticks, level);
        proof {
            let keys = prior.sorted_keys@;
            let side = prior.side;
            assert(self.levels@ =~= prior.levels@.insert(key.ticks, level));
            assert forall|i: int| 0 <= i < keys.len() && i != r implies (#[trigger] keys[i]).ticks
                != keys[r as int].ticks by {
                if i < r {
                    assert(better(keys[i], keys[r as int], side));
                } else {
                    assert(better(keys[r as int], keys[i], side));
                }
            }
            assert forall|i: int| 0 <= i < keys.len() implies self.levels@.contains_key(
                (#[trigger] keys[i]).ticks,
            ) && self.levels@[keys[i].ticks]@.price == keys[i] && self.levels@[keys[i].ticks]@
                == prior@.update(r as int, level@)[i] by {
                assert(prior.levels@.contains_key(keys[i].ticks));
                assert(prior@[i] == prior.levels@[keys[i].ticks]@);
            }
            assert(self@ =~= prior@.update(r as int, level@));
            assert(prior@[r as int].price == keys[r as int]);
            lemma_update_valid(prior@, side, r as int, level@);
        }
    }

    /// Puts `level` back at position `r` if an order is left in it, and
    /// strikes its price from the list if none is.
    fn settle(&mut self, r: usize, level: Limit, Ghost(prior): Ghost<BookSide>)
        requires
            prior.wf(),
            r < prior.sorted_keys@.len(),
            old(self).side == prior.side,
            old(self).sorted_keys@ == prior.sorted_keys@,
            old(self).levels@ == prior.levels@.remove(prior.sorted_keys@[r as int].ticks),
            level@.price == prior.sorted_keys@[r as int],
            all_open(level@.orders),
            level@.holds_only(prior.side),
        ensures
            final(self).wf(),
            final(self).side() == prior.side(),
            level@.orders.len() == 0 ==> final(self)@ == prior@.remove(r as int),
            level@.orders.len() > 0 ==> final(self)@ == prior@.update(r as int, level@),
    {
        if level.is_empty() {
            self.unlist(r, Ghost(prior));
        } else {
            self.relist(r, level, Ghost(prior));
        }
    }

    /// Matches `market_order` against the side from the best price on, level
    /// by level, until the order is filled or nothing rests on the side. A
    /// level whose last order is filled leaves the side.
    pub fn fill_market_order(&mut self, market_order: &mut Order) -> (fills: Vec<Fill>)
        requires
            old(self).wf(),
        ensures
            fill_views(fills@) == sweep_fills(
                old(self)@,
                old(market_order)@.trader_id,
                old(market_order)@.size,
            ),
            final(self).wf(),
            final(self).side() == old(self).side(),
            final(self)@ == sweep(old(self)@, old(market_order)@.size),
            final(market_order)@ == old(market_order)@.with_size(
                (old(market_order)@.size - swept(old(self)@, old(market_order)@.size)) as nat,
            ),
    {
        let ghost before = self@;
        let ghost incoming = market_order@;
        let mut fills: Vec<Fill> = Vec::new();
        assert(fill_views(fills@) + sweep_fills(before, incoming.trader_id, incoming.size)
            =~= sweep_fills(before, incoming.trader_id, incoming.size));
        while !market_order.is_filled() && self.sorted_keys.len() > 0
            invariant
                self.wf(),
                fill_views(fills@) + sweep_fills(self@, incoming.trader_id, market_order@.size)
                    == sweep_fills(before, incoming.trader_id, incoming.size),
                self.side() == old(self).side(),
                self@.len() == self.sorted_keys@.len(),
                market_order@ == incoming.with_size(market_order@.size),
                market_order@.size <= incoming.size,
                sweep(self@, market_order@.size) == sweep(before, incoming.size),
                market_order@.size - swept(self@, market_order@.size) == incoming.size - swept(
                    before,
                    incoming.size,
                ),
            decreases self.sorted_keys@.len() + market_order@.size,
        {
            let ghost prior = *self;
            let ghost wanted = market_order@.size;
            let ghost so_far = fill_views(fills@);
            let mut level = self.take(0);
            let ghost resting = level@;
            let mut made = level.fill_order(market_order);
            let ghost here = fill_views(made@);
            fills.append(&mut made);
            proof {
                lemma_fill_exhausts(resting.orders, wanted);
                lemma_fill_keeps_side(resting, prior.side, wanted);
                assert(prior@.remove(0) =~= prior@.skip(1));
                assert(prior@.update(0, level@).skip(1) =~= prior@.skip(1));
                let rest = sweep_fills(prior@.skip(1), incoming.trader_id, market_order@.size);
                assert(fill_views(fills@) =~= so_far + here);
                assert((so_far + here) + rest =~= so_far + (here + rest));
                if level@.orders.len() > 0 {
                    assert(rest =~= Seq::<FillView>::empty());
                }
            }
            self.settle(0, level, Ghost(prior));
        }
        assert(fill_views(fills@) + Seq::<FillView>::empty() =~= fill_views(fills@));
        fills
    }

    /// Matches `market_order` against the level at `price` and no other. The
    /// level leaves the side if its last order is filled.
    pub fn fill_order_at(&mut self, price: Price, market_order: &mut Order) -> (fills: Vec<Fill>)
        requires
            old(self).wf(),
        ensures
            fill_views(fills@) == fills_at(
                old(self)@,
                price,
                old(self).side(),
                old(market_order)@.trader_id,
                old(market_order)@.size,
            ),
            final(self).wf(),
            final(self).side() == old(self).side(),
            final(self)@ == fill_at(old(self)@, price, old(self).side(), old(market_order)@.size),
            final(market_order)@ == old(market_order)@.with_size(
                (old(market_order)@.size - matched_at(
                    old(self)@,
                    price,
                    old(self).side(),
                    old(market_order)@.size,
                )) as nat,
            ),
    {
        let r = self.locate(price);
        if r < self.sorted_keys.len() && self.sorted_keys[r].ticks == price.ticks {
            let ghost prior = *self;
            let ghost wanted = market_order@.size;
            let mut level = self.take(r);
            let ghost resting = level@;
            let fills = level.fill_order(market_order);
            proof {
                lemma_fill_keeps_side(resting, prior.side, wanted);
            }
            self.settle(r, level, Ghost(prior));
            fills
        } else {
            let fills: Vec<Fill> = Vec::new();
            assert(fill_views(fills@) =~= Seq::<FillView>::empty());
            fills
        }
    }

    /// Takes the whole level at `price` off the side, if there is one.
    pub fn remove_price_level(&mut self, price: Price) -> (removed: Option<Limit>)
        requires
            old(self).wf(),
        ensures
            final(self).wf(),
            final(self).side() == old(self).side(),
            removed.is_some() <==> has_level(old(self)@, price, old(self).side()),
            removed.is_some() ==> removed.unwrap()@ == old(self)@[rank(
                old(self)@,
                price,
                old(self).side(),
            ) as int] && removed.unwrap().wf(),
            final(self)@ == drop_level(old(self)@, price, old(self).side()),
    {
        let r = self.locate(price);
        if r < self.sorted_keys.len() && self.sorted_keys[r].ticks == price.ticks {
            let ghost prior = *self;
            let level = self.take(r);
            self.unlist(r, Ghost(prior));
            Some(level)
        } else {
            None
        }
    }

    /// Takes the oldest order that `trader_id` has resting at `price` off the
    /// side, if there is one. Its level leaves the side if that was its last
    /// order.
    pub fn cancel_order(&mut self, price: Price, trader_id: &String) -> (cancelled: Option<Order>)
        requires
            old(self).wf(),
        ensures
            final(self).wf(),
            final(self).side() == old(self).side(),
            final(self)@ == cancel_at(old(self)@, price, old(self).side(), trader_id@),
            cancelled.is_some() <==> has_order(old(self)@, price, old(self).side(), trader_id@),
            cancelled.is_some() ==> cancelled.unwrap()@ == oldest_order(
                old(self)@,
                price,
                old(self).side(),
                trader_id@,
            ),
    {
        let r = self.locate(price);
        if r < self.sorted_keys.len() && self.sorted_keys[r].ticks == price.ticks {
            let ghost prior = *self;
            let mut level = self.take(r);
            let ghost resting = level@;
            let position = level.position_of(trader_id);
            let cancelled = level.remove_order(position);
            proof {
                lemma_first_of_bounds(resting.orders, trader_id@);
                if position < resting.orders.len() {
                    assert(level@.holds_only(prior.side)) by {
                        assert forall|i: int| 0 <= i < level@.orders.len() implies (
                        #[trigger] level@.orders[i]).side == prior.side && level@.orders[i].price
                            == level@.price by {
                            let a = if i < position { i } else { i + 1 };
                            assert(level@.orders[i] == resting.orders[a]);
                        }
                    }
                } else {
                    assert(prior@.update(r as int, resting) =~= prior@);
                }
            }
            self.settle(r, level, Ghost(prior));
            cancelled
        } else {
            None
        }
    }
}

} // verus!
