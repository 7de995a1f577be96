//! Price levels: the orders resting at one price, oldest first.

use vstd::prelude::*;
use std::collections::VecDeque;
use crate::fill::{fill_views, filled_total, fills_of, Fill, FillView};
use crate::order::{BidorAsk, Order, OrderView};
use crate::price::Price;

verus! {

/// The sum of the remaining sizes of `orders`.
pub open spec fn total_size(orders: Seq<OrderView>) -> nat
    decreases orders.len(),
{
    if orders.len() == 0 {
        0
    } else {
        orders[0].size + total_size(orders.skip(1))
    }
}

/// The queue `orders` after an incoming quantity `qty` has been matched
/// against it from the front: every order that `qty` covers whole is gone,
/// the first one that it covers in part keeps the rest of its size, and the
/// orders behind that one are as they were.
pub open spec fn fill_queue(orders: Seq<OrderView>, qty: nat) -> Seq<OrderView>
    decreases orders.len(),
{
    if orders.len() == 0 || qty == 0 {
        orders
    } else if qty >= orders[0].size {
        fill_queue(orders.skip(1), (qty - orders[0].size) as nat)
    } else {
        orders.update(0, orders[0].with_size((orders[0].size - qty) as nat))
    }
}

/// The quantity that changes hands when `qty` meets `orders`: all of `qty`,
/// or all that rests, whichever is less.
pub open spec fn matched(orders: Seq<OrderView>, qty: nat) -> nat {
    if qty <= total_size(orders) {
        qty
    } else {
        total_size(orders)
    }
}

/// The queue `orders` after the quantities of `incoming` have been matched
/// against it one after the other.
pub open spec fn fill_each(orders: Seq<OrderView>, incoming: Seq<nat>) -> Seq<OrderView>
    decreases incoming.len(),
{
    if incoming.len() == 0 {
        orders
    } else {
        fill_each(fill_queue(orders, incoming[0]), incoming.skip(1))
    }
}

/// The quantity that changes hands in all when the quantities of `incoming`
/// meet `orders` one after the other.
pub open spec fn matched_each(orders: Seq<OrderView>, incoming: Seq<nat>) -> nat
    decreases incoming.len(),
{
    if incoming.len() == 0 {
        0
    } else {
        matched(orders, incoming[0]) + matched_each(
            fill_queue(orders, incoming[0]),
            incoming.skip(1),
        )
    }
}

/// The position of the oldest order of `trader` in `orders`, or the length
/// of `orders` if the trader has none there.
pub open spec fn first_of(orders: Seq<OrderView>, trader: Seq<char>) -> nat
    decreases orders.len(),
{
    if orders.len() == 0 {
        0
    } else if orders[0].trader_id == trader {
        0
    } else {
        1 + first_of(orders.skip(1), trader)
    }
}

/// Whether `entries` lists the trader and the remaining size of each order
/// of `orders`, in the same order.
pub open spec fn shows(entries: Seq<(String, u64)>, orders: Seq<OrderView>) -> bool {
    &&& entries.len() == orders.len()
    &&& forall|i: int|
        0 <= i < entries.len() ==> (#[trigger] entries[i]).0@ == orders[i].trader_id && entries[i].1
            == orders[i].size
}

/// Every order of `orders` has something left to fill.
pub open spec fn all_open(orders: Seq<OrderView>) -> bool {
    forall|i: int| 0 <= i < orders.len() ==> (#[trigger] orders[i]).size > 0
}

/// A fill neither makes nor loses volume: what rested before is what rests
/// after plus what changed hands.
pub proof fn lemma_fill_conserves(orders: Seq<OrderView>, qty: nat)
    ensures
        total_size(orders) == total_size(fill_queue(orders, qty)) + matched(orders, qty),
    decreases orders.len(),
{
    if orders.len() == 0 || qty == 0 {
    } else if qty >= orders[0].size {
        lemma_fill_conserves(orders.skip(1), (qty - orders[0].size) as nat);
    } else {
        let left = orders.update(0, orders[0].with_size((orders[0].size - qty) as nat));
        assert(left.skip(1) =~= orders.skip(1));
    }
}

/// Any run of fills at a level conserves volume: what rested before the
/// first is what rests after the last plus all that changed hands.
pub proof fn lemma_fills_conserve(orders: Seq<OrderView>, incoming: Seq<nat>)
    ensures
        total_size(orders) == total_size(fill_each(orders, incoming)) + matched_each(
            orders,
            incoming,
        ),
    decreases incoming.len(),
{
    if incoming.len() > 0 {
        lemma_fill_conserves(orders, incoming[0]);
        lemma_fills_conserve(fill_queue(orders, incoming[0]), incoming.skip(1));
    }
}

/// The quantity of a run of fills followed by another is that of both.
pub proof fn lemma_total_of_both(first: Seq<FillView>, second: Seq<FillView>)
    ensures
        filled_total(first + second) == filled_total(first) + filled_total(second),
    decreases first.len(),
{
    if first.len() == 0 {
        assert(first + second =~= second);
    } else {
        assert((first + second).skip(1) =~= first.skip(1) + second);
        lemma_total_of_both(first.skip(1), second);
    }
}

/// The fills of a match account for all that changed hands and no more,
/// and none of them is for nothing.
pub proof fn lemma_fills_account(orders: Seq<OrderView>, taker: Seq<char>, qty: nat)
    requires
        all_open(orders),
    ensures
        filled_total(fills_of(orders, taker, qty)) == matched(orders, qty),
        forall|i: int|
            0 <= i < fills_of(orders, taker, qty).len() ==> (#[trigger] fills_of(
                orders,
                taker,
                qty,
            )[i]).quantity > 0,
    decreases orders.len(),
{
    if orders.len() == 0 || qty == 0 {
    } else {
        let take = if qty >= orders[0].size {
            orders[0].size
        } else {
            qty
        };
        let head = seq![
            FillView { maker: orders[0].trader_id, taker, price: orders[0].price, quantity: take },
        ];
        let tail = fills_of(orders.skip(1), taker, (qty - take) as nat);
        lemma_fills_account(orders.skip(1), taker, (qty - take) as nat);
        lemma_total_of_both(head, tail);
        assert(head.skip(1) =~= Seq::<FillView>::empty());
        assert(filled_total(head.skip(1)) == 0);
        assert(head[0].quantity == take);
        assert(filled_total(head) == take);
        assert forall|i: int| 0 <= i < (head + tail).len() implies (#[trigger] (head + tail)[i]).quantity
            > 0 by {
            if i > 0 {
                assert((head + tail)[i] == tail[i - 1]);
            }
        }
    }
}

/// Priority within a level is arrival order: an incoming quantity smaller
/// than the oldest order is taken from that order alone, and every order
/// behind it stays as it was.
pub proof fn lemma_fill_is_fifo(orders: Seq<OrderView>, qty: nat)
    requires
        orders.len() > 0,
        qty < orders[0].size,
    ensures
        fill_queue(orders, qty).len() == orders.len(),
        fill_queue(orders, qty)[0] == orders[0].with_size((orders[0].size - qty) as nat),
        forall|i: int| 1 <= i < orders.len() ==> fill_queue(orders, qty)[i] == orders[i],
        matched(orders, qty) == qty,
{
}

/// A fill takes from the oldest orders first: what is left of the queue is
/// its younger end, untouched but for the order now at the front, which has
/// lost size only.
pub proof fn lemma_fill_takes_oldest_first(orders: Seq<OrderView>, qty: nat)
    ensures
        fill_queue(orders, qty).len() <= orders.len(),
        fill_queue(orders, qty).len() > 0 ==> ({
            let front = orders[orders.len() - fill_queue(orders, qty).len()];
            fill_queue(orders, qty)[0] == front.with_size(fill_queue(orders, qty)[0].size)
                && fill_queue(orders, qty)[0].size <= front.size
        }),
        forall|j: int|
            1 <= j < fill_queue(orders, qty).len() ==> (#[trigger] fill_queue(orders, qty)[j])
                == orders[orders.len() - fill_queue(orders, qty).len() + j],
    decreases orders.len(),
{
    if orders.len() == 0 || qty == 0 {
    } else if qty >= orders[0].size {
        let rest = orders.skip(1);
        let less = (qty - orders[0].size) as nat;
        lemma_fill_takes_oldest_first(rest, less);
        let now = fill_queue(rest, less);
        if now.len() > 0 {
            assert(rest[rest.len() - now.len()] == orders[orders.len() - now.len()]);
        }
        assert forall|j: int| 1 <= j < now.len() implies (#[trigger] now[j]) == orders[orders.len()
            - now.len() + j] by {
            assert(now[j] == rest[rest.len() - now.len() + j]);
        }
    } else {
    }
}

/// A fill leaves no filled order behind.
pub proof fn lemma_fill_keeps_open(orders: Seq<OrderView>, qty: nat)
    requires
        all_open(orders),
    ensures
        all_open(fill_queue(orders, qty)),
    decreases orders.len(),
{
    if orders.len() == 0 || qty == 0 {
    } else if qty >= orders[0].size {
        lemma_fill_keeps_open(orders.skip(1), (qty - orders[0].size) as nat);
    } else {
    }
}

/// A fill uses a level up exactly when the incoming quantity covers all
/// that rests there.
pub proof fn lemma_fill_exhausts(orders: Seq<OrderView>, qty: nat)
    requires
        all_open(orders),
    ensures
        fill_queue(orders, qty).len() == 0 <==> qty >= total_size(orders),
    decreases orders.len(),
{
    if orders.len() == 0 {
    } else if qty == 0 {
    } else if qty >= orders[0].size {
        lemma_fill_exhausts(orders.skip(1), (qty - orders[0].size) as nat);
    } else {
    }
}

/// A fill changes sizes only: whoever rests after it rested before it, on
/// the same side and at the same price.
pub proof fn lemma_fill_keeps_side(level: LimitView, side: BidorAsk, qty: nat)
    requires
        level.holds_only(side),
    ensures
        (LimitView { price: level.price, orders: fill_queue(level.orders, qty) }).holds_only(side),
    decreases level.orders.len(),
{
    let orders = level.orders;
    if orders.len() == 0 || qty == 0 {
    } else if qty >= orders[0].size {
        let rest = LimitView { price: level.price, orders: orders.skip(1) };
        assert forall|i: int| 0 <= i < rest.orders.len() implies (#[trigger] rest.orders[i]).side
            == side && rest.orders[i].price == rest.price by {
            assert(rest.orders[i] == orders[i + 1]);
        }
        lemma_fill_keeps_side(rest, side, (qty - orders[0].size) as nat);
    } else {
    }
}

/// A price level as a value: its price and its queue, oldest order first.
pub struct LimitView {
    pub price: Price,
    pub orders: Seq<OrderView>,
}

impl LimitView {
    /// Every order of the level is on `side` and at the level's price.
    pub open spec fn holds_only(self, side: BidorAsk) -> bool {
        forall|i: int|
            0 <= i < self.orders.len() ==> (#[trigger] self.orders[i]).side == side
                && self.orders[i].price == self.price
    }
}

/// The orders resting at one price, in the order in which they arrived.
#[derive(Debug)]
pub struct Limit {
    price: Price,
    orders: VecDeque<Order>,
}

impl View for Limit {
    type V = LimitView;

    closed spec fn view(&self) -> LimitView {
        LimitView { price: self.price, orders: self.orders@.map_values(|o: Order| o@) }
    }
}

impl Limit {
    /// No filled order rests in the level.
    pub open spec fn wf(&self) -> bool {
        all_open(self@.orders)
    }

    /// An empty level at `price`.
    pub fn new(price: Price) -> (limit: Limit)
        ensures
            limit@.price == price,
            limit@.orders == Seq::<OrderView>::empty(),
            limit.wf(),
    {
        let limit = Limit { price, orders: VecDeque::new() };
        assert(limit@.orders =~= Seq::<OrderView>::empty());
        limit
    }

    /// The sum of the remaining sizes of the resting orders; zero for an
    /// empty level.
    pub fn total_volume(&self) -> (volume: u128)
        ensures
            volume == total_size(self@.orders),
    {
        let ghost orders = self@.orders;
        let mut volume: u128 = 0;
        let mut i: usize = 0;
        assert(orders.skip(0) =~= orders);
        while i < self.orders.len()
            invariant
                i <= self.orders.len(),
                orders == self@.orders,
                orders.len() == self.orders.len(),
                volume <= i * 0xFFFF_FFFF_FFFF_FFFF,
                volume + total_size(orders.skip(i as int)) == total_size(orders),
            decreases self.orders.len() - i,
        {
            let size = self.orders[i].get_size();
            proof {
                assert(orders.skip(i as int)[0] == self.orders@[i as int]@);
                assert(orders.skip(i as int).skip(1) =~= orders.skip(i + 1));
            }
            volume = volume + size as u128;
            i = i + 1;
        }
        volume
    }

    /// Matches `market_order` against the resting orders, oldest first. Each
    /// resting order in turn gives up as much as the incoming order still
    /// wants, until the incoming order is filled or the level is used up;
    /// resting orders that were filled leave the level.
    pub fn fill_order(&mut self, market_order: &mut Order) -> (fills: Vec<Fill>)
        requires
            old(self).wf(),
        ensures
            fill_views(fills@) == fills_of(
                old(self)@.orders,
                old(market_order)@.trader_id,
                old(market_order)@.size,
            ),
            final(self).wf(),
            final(self)@.price == old(self)@.price,
            final(self)@.orders == fill_queue(old(self)@.orders, old(market_order)@.size),
            final(market_order)@ == old(market_order)@.with_size(
                (old(market_order)@.size - matched(old(self)@.orders, old(market_order)@.size)) as nat,
            ),
            total_size(old(self)@.orders) == total_size(final(self)@.orders) + (old(
                market_order,
            )@.size - final(market_order)@.size),
    {
        proof {
            lemma_fill_conserves(old(self)@.orders, old(market_order)@.size);
        }
        let ghost before = self@.orders;
        let ghost incoming = market_order@;
        let mut fills: Vec<Fill> = Vec::new();
        assert(fill_views(fills@) + fills_of(before, incoming.trader_id, incoming.size) =~= fills_of(
            before,
            incoming.trader_id,
            incoming.size,
        ));
        while !market_order.is_filled() && self.orders.len() > 0
            invariant
                self.wf(),
                fill_views(fills@) + fills_of(self@.orders, incoming.trader_id, market_order@.size)
                    == fills_of(before, incoming.trader_id, incoming.size),
                self@.price == old(self)@.price,
                self@.orders.len() == self.orders.len(),
                market_order@ == incoming.with_size(market_order@.size),
                market_order@.size <= incoming.size,
                fill_queue(self@.orders, market_order@.size) == fill_queue(before, incoming.size),
                market_order@.size - matched(self@.orders, market_order@.size) == incoming.size
                    - matched(before, incoming.size),
            decreases self.orders.len() + market_order@.size,
        {
            let ghost queue = self@.orders;
            let ghost so_far = fill_views(fills@);
            let wanted = market_order.get_size();
            let mut resting = self.orders.pop_front().unwrap();
            let offered = resting.get_size();
            assert(resting@ == queue[0]);
            assert(self@.orders =~= queue.skip(1));
            let take = if wanted >= offered {
                offered
            } else {
                wanted
            };
            let fill = Fill::new(
                resting.get_trader_id().clone(),
                market_order.get_trader_id().clone(),
                resting.get_price(),
                take,
            );
            fills.push(fill);
            proof {
                let rest = fills_of(queue.skip(1), incoming.trader_id, (wanted - take) as nat);
                assert(fill_views(fills@) =~= so_far.push(fill@));
                assert(so_far.push(fill@) + rest =~= so_far + (seq![fill@] + rest));
            }
            if wanted >= offered {
                market_order.reduce_by(offered);
            } else {
                resting.reduce_by(wanted);
                market_order.reduce_by(wanted);
                self.orders.push_front(resting);
                proof {
                    let left = queue.update(0, queue[0].with_size((offered - wanted) as nat));
                    assert(self@.orders =~= left);
                    assert(left.skip(1) =~= queue.skip(1));
                }
            }
        }
        assert(fill_views(fills@) + Seq::<FillView>::empty() =~= fill_views(fills@));
        fills
    }

    /// Puts `order` at the back of the queue.
    pub fn add_order(&mut self, order: Order)
        requires
            old(self).wf(),
            order@.size > 0,
        ensures
            final(self).wf(),
            final(self)@.price == old(self)@.price,
            final(self)@.orders == old(self)@.orders.push(order@),
    {
        self.orders.push_back(order);
        assert(self@.orders =~= old(self)@.orders.push(order@));
    }

    /// Takes the order at `index` out of the queue, if there is one.
    pub fn remove_order(&mut self, index: usize) -> (removed: Option<Order>)
        requires
            old(self).wf(),
        ensures
            final(self).wf(),
            final(self)@.price == old(self)@.price,
            index < old(self)@.orders.len() ==> removed.is_some() && removed.unwrap()@ == old(
                self,
            )@.orders[index as int] && final(self)@.orders == old(self)@.orders.remove(
                index as int,
            ),
            index >= old(self)@.orders.len() ==> removed.is_none() && final(self)@ == old(self)@,
    {
        let removed = self.orders.remove(index);
        proof {
            if index < old(self)@.orders.len() {
                assert(self@.orders =~= old(self)@.orders.remove(index as int));
            }
        }
        removed
    }

    /// The order at `index` of the queue, if there is one.
    pub fn get_order(&self, index: usize) -> (found: Option<&Order>)
        ensures
            index < self@.orders.len() ==> found.is_some() && found.unwrap()@
                == self@.orders[index as int],
            index >= self@.orders.len() ==> found.is_none(),
    {
        if index < self.orders.len() {
            Some(&self.orders[index])
        } else {
            None
        }
    }

    /// The position of the oldest order of `trader_id` in the queue, or the
    /// length of the queue if the trader has no order in it.
    pub fn position_of(&self, trader_id: &String) -> (position: usize)
        ensures
            position == first_of(self@.orders, trader_id@),
            position <= self@.orders.len(),
    {
        let ghost orders = self@.orders;
        let mut position: usize = 0;
        assert(orders.skip(0) =~= orders);
        while position < self.orders.len()
            invariant
                position <= self.orders.len(),
                orders == self@.orders,
                orders.len() == self.orders.len(),
                first_of(orders, trader_id@) == position + first_of(
                    orders.skip(position as int),
                    trader_id@,
                ),
            decreases self.orders.len() - position,
        {
            proof {
                assert(orders.skip(position as int)[0] == self.orders@[position as int]@);
                assert(orders.skip(position as int).skip(1) =~= orders.skip(position + 1));
            }
            if *self.orders[position].get_trader_id() == *trader_id {
                return position;
            }
            position = position + 1;
        }
        position
    }

    /// The trader and the remaining size of each resting order, oldest
    /// first.
    pub fn snapshot(&self) -> (entries: Vec<(String, u64)>)
        ensures
            shows(entries@, self@.orders),
    {
        let mut entries: Vec<(String, u64)> = Vec::new();
        let mut i: usize = 0;
        while i < self.orders.len()
            invariant
                i <= self.orders.len(),
                self@.orders.len() == self.orders.len(),
                shows(entries@, self@.orders.take(i as int)),
            decreases self.orders.len() - i,
        {
            let order = &self.orders[i];
            entries.push((order.get_trader_id().clone(), order.get_size()));
            proof {
                assert(self@.orders[i as int] == self.orders@[i as int]@);
            }
            i = i + 1;
        }
        assert(self@.orders.take(i as int) =~= self@.orders);
        entries
    }

    /// The price of the level.
    pub fn get_price(&self) -> (price: Price)
        ensures
            price == self@.price,
    {
        self.price
    }

    /// The number of resting orders.
    pub fn len(&self) -> (count: usize)
        ensures
            count == self@.orders.len(),
    {
        self.orders.len()
    }

    /// Whether no order rests at the level.
    pub fn is_empty(&self) -> (empty: bool)
        ensures
            empty == (self@.orders.len() == 0),
    {
        self.orders.len() == 0
    }
}

} // verus!
