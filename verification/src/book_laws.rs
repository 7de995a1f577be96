//! What holds of the operations on a side of the book, stated over sides as
//! sequences of levels: they keep a side valid, they take volume from the
//! best price first, they neither make nor lose volume, and a level that is
//! used up is gone.

use vstd::prelude::*;
use crate::book_side::{better, book_volume, fill_at, fills_at, has_level, matched_at, rank};
use crate::book_side::{rest_order, side_valid, sweep, sweep_fills, swept};
use crate::fill::{filled_total, fills_of};
use crate::book_side::{lemma_has_level, lemma_rank_bounds, lemma_remove_valid, lemma_update_valid};
use crate::limit::{all_open, fill_queue, matched, total_size, LimitView};
use crate::limit::{lemma_fill_conserves, lemma_fill_exhausts, lemma_fill_keeps_open};
use crate::limit::{lemma_fill_keeps_side, lemma_fills_account, lemma_total_of_both};
use crate::order::{BidorAsk, OrderView};
use crate::price::Price;

verus! {

/// An order that comes to rest leaves the side valid: the prices still run
/// strictly from best to worst, whatever the order in which they came.
pub proof fn lemma_rest_order_valid(levels: Seq<LimitView>, order: OrderView, side: BidorAsk)
    requires
        side_valid(levels, side),
        order.side == side,
        order.size > 0,
    ensures
        side_valid(rest_order(levels, order, side), side),
        has_level(rest_order(levels, order, side), order.price, side),
{
    lemma_rank_bounds(levels, order.price, side);
    let r = rank(levels, order.price, side) as int;
    let now = rest_order(levels, order, side);
    if has_level(levels, order.price, side) {
        let grown = LimitView { price: order.price, orders: levels[r].orders.push(order) };
        assert(levels[r].holds_only(side));
        lemma_update_valid(levels, side, r, grown);
    } else {
        let fresh = LimitView { price: order.price, orders: seq![order] };
        assert forall|i: int, j: int| 0 <= i < j < now.len() implies better(
            (#[trigger] now[i]).price,
            (#[trigger] now[j]).price,
            side,
        ) by {
            let a = if i < r { i } else { i - 1 };
            let b = if j < r { j } else { j - 1 };
            if i == r {
                assert(now[j] == levels[b]);
                if b > r {
                    assert(better(levels[r].price, levels[b].price, side));
                }
            } else if j == r {
                assert(now[i] == levels[a]);
            } else {
                assert(now[i] == levels[a]);
                assert(now[j] == levels[b]);
                assert(better(levels[a].price, levels[b].price, side));
            }
        }
        assert forall|i: int| 0 <= i < now.len() implies (#[trigger] now[i]).orders.len() > 0
            && all_open(now[i].orders) && now[i].holds_only(side) by {
            if i != r {
                let a = if i < r { i } else { i - 1 };
                assert(now[i] == levels[a]);
            }
        }
    }
    assert(now[r].price == order.price);
    lemma_has_level(now, order.price, side);
}

/// A fill at one price leaves the side valid.
pub proof fn lemma_fill_at_valid(levels: Seq<LimitView>, price: Price, side: BidorAsk, qty: nat)
    requires
        side_valid(levels, side),
    ensures
        side_valid(fill_at(levels, price, side, qty), side),
{
    let r = rank(levels, price, side) as int;
    if has_level(levels, price, side) {
        let left = fill_queue(levels[r].orders, qty);
        if left.len() == 0 {
            lemma_remove_valid(levels, side, r);
        } else {
            lemma_fill_keeps_open(levels[r].orders, qty);
            lemma_fill_keeps_side(levels[r], side, qty);
            lemma_update_valid(levels, side, r, LimitView { price, orders: left });
        }
    }
}

/// Once an incoming quantity has covered all that rests at a price, the
/// side has no level at that price any more.
pub proof fn lemma_spent_level_leaves(levels: Seq<LimitView>, price: Price, side: BidorAsk, qty: nat)
    requires
        side_valid(levels, side),
        has_level(levels, price, side),
        qty >= total_size(levels[rank(levels, price, side) as int].orders),
    ensures
        !has_level(fill_at(levels, price, side, qty), price, side),
        forall|i: int|
            0 <= i < fill_at(levels, price, side, qty).len() ==> (#[trigger] fill_at(
                levels,
                price,
                side,
                qty,
            )[i]).price != price,
{
    let r = rank(levels, price, side) as int;
    let now = fill_at(levels, price, side, qty);
    lemma_fill_exhausts(levels[r].orders, qty);
    lemma_has_level(levels, price, side);
    lemma_fill_at_valid(levels, price, side, qty);
    assert forall|i: int| 0 <= i < now.len() implies (#[trigger] now[i]).price != price by {
        let a = if i < r { i } else { i + 1 };
        assert(now[i] == levels[a]);
    }
    lemma_has_level(now, price, side);
}

/// A fill at one price neither makes nor loses volume.
pub proof fn lemma_fill_at_conserves(levels: Seq<LimitView>, price: Price, side: BidorAsk, qty: nat)
    requires
        side_valid(levels, side),
    ensures
        book_volume(levels) == book_volume(fill_at(levels, price, side, qty)) + matched_at(
            levels,
            price,
            side,
            qty,
        ),
{
    let r = rank(levels, price, side) as int;
    if has_level(levels, price, side) {
        let left = fill_queue(levels[r].orders, qty);
        lemma_fill_conserves(levels[r].orders, qty);
        lemma_volume_at(levels, r);
        if left.len() == 0 {
            assert(total_size(left) == 0);
        } else {
            let now = levels.update(r, LimitView { price, orders: left });
            lemma_volume_at(now, r);
            assert(now.remove(r) =~= levels.remove(r));
        }
    }
}

/// The volume of a side is the volume of one of its levels and that of the
/// side without it.
pub proof fn lemma_volume_at(levels: Seq<LimitView>, r: int)
    requires
        0 <= r < levels.len(),
    ensures
        book_volume(levels) == total_size(levels[r].orders) + book_volume(levels.remove(r)),
    decreases r,
{
    if r == 0 {
        assert(levels.remove(0) =~= levels.skip(1));
    } else {
        lemma_volume_at(levels.skip(1), r - 1);
        assert(levels.remove(r).skip(1) =~= levels.skip(1).remove(r - 1));
    }
}

/// A market order takes from the best price first: what is left of the side
/// is its worse end, untouched but for the level now at the front, which
/// keeps its price and may have been filled in part.
pub proof fn lemma_sweep_best_first(levels: Seq<LimitView>, qty: nat)
    ensures
        sweep(levels, qty).len() <= levels.len(),
        sweep(levels, qty).len() > 0 ==> sweep(levels, qty)[0].price == levels[levels.len()
            - sweep(levels, qty).len()].price,
        forall|j: int|
            1 <= j < sweep(levels, qty).len() ==> (#[trigger] sweep(levels, qty)[j]) == levels[levels.len()
                - sweep(levels, qty).len() + j],
    decreases levels.len(),
{
    if levels.len() == 0 || qty == 0 {
    } else if qty >= total_size(levels[0].orders) {
        let rest = levels.skip(1);
        let less = (qty - total_size(levels[0].orders)) as nat;
        lemma_sweep_best_first(rest, less);
        let now = sweep(rest, less);
        assert forall|j: int| 1 <= j < now.len() implies (#[trigger] now[j]) == levels[levels.len()
            - now.len() + j] by {
            assert(now[j] == rest[rest.len() - now.len() + j]);
        }
    } else {
    }
}

/// A level that a market order finds on its way is touched only when the
/// order is larger than all that rests at better prices.
pub proof fn lemma_sweep_spares_the_worse(levels: Seq<LimitView>, qty: nat, i: int)
    requires
        0 <= i < levels.len(),
        qty <= book_volume(levels.take(i)),
    ensures
        sweep(levels, qty).len() >= levels.len() - i,
        sweep(levels, qty)[sweep(levels, qty).len() - (levels.len() - i)] == levels[i],
    decreases levels.len(),
{
    if qty == 0 {
    } else if i == 0 {
        assert(book_volume(levels.take(0)) == 0);
    } else if qty >= total_size(levels[0].orders) {
        let rest = levels.skip(1);
        let less = (qty - total_size(levels[0].orders)) as nat;
        assert(levels.take(i)[0] == levels[0]);
        assert(levels.take(i).skip(1) =~= rest.take(i - 1));
        lemma_sweep_spares_the_worse(rest, less, i - 1);
    } else {
    }
}

/// A market order leaves the side valid.
pub proof fn lemma_sweep_valid(levels: Seq<LimitView>, side: BidorAsk, qty: nat)
    requires
        side_valid(levels, side),
    ensures
        side_valid(sweep(levels, qty), side),
    decreases levels.len(),
{
    if levels.len() == 0 || qty == 0 {
    } else if qty >= total_size(levels[0].orders) {
        lemma_remove_valid(levels, side, 0);
        assert(levels.remove(0) =~= levels.skip(1));
        lemma_sweep_valid(levels.skip(1), side, (qty - total_size(levels[0].orders)) as nat);
    } else {
        lemma_fill_exhausts(levels[0].orders, qty);
        lemma_fill_keeps_open(levels[0].orders, qty);
        lemma_fill_keeps_side(levels[0], side, qty);
        lemma_update_valid(
            levels,
            side,
            0,
            LimitView { price: levels[0].price, orders: fill_queue(levels[0].orders, qty) },
        );
    }
}

/// A market order neither makes nor loses volume: what rested on the side
/// before is what rests after plus what changed hands.
pub proof fn lemma_sweep_conserves(levels: Seq<LimitView>, qty: nat)
    ensures
        book_volume(levels) == book_volume(sweep(levels, qty)) + swept(levels, qty),
    decreases levels.len(),
{
    if levels.len() == 0 || qty == 0 {
    } else if qty >= total_size(levels[0].orders) {
        lemma_sweep_conserves(levels.skip(1), (qty - total_size(levels[0].orders)) as nat);
    } else {
        let now = levels.update(
            0,
            LimitView { price: levels[0].price, orders: fill_queue(levels[0].orders, qty) },
        );
        lemma_fill_conserves(levels[0].orders, qty);
        assert(now.skip(1) =~= levels.skip(1));
    }
}

/// The fills of a market order account for all that changed hands and no
/// more.
pub proof fn lemma_sweep_fills_account(levels: Seq<LimitView>, side: BidorAsk, taker: Seq<char>, qty: nat)
    requires
        side_valid(levels, side),
    ensures
        filled_total(sweep_fills(levels, taker, qty)) == swept(levels, qty),
    decreases levels.len(),
{
    if levels.len() == 0 || qty == 0 {
    } else {
        let here = fills_of(levels[0].orders, taker, qty);
        let less = (qty - matched(levels[0].orders, qty)) as nat;
        lemma_fills_account(levels[0].orders, taker, qty);
        lemma_remove_valid(levels, side, 0);
        assert(levels.remove(0) =~= levels.skip(1));
        lemma_sweep_fills_account(levels.skip(1), side, taker, less);
        lemma_total_of_both(here, sweep_fills(levels.skip(1), taker, less));
    }
}

/// The fills of a limit order account for all that changed hands and no
/// more.
pub proof fn lemma_fills_at_account(
    levels: Seq<LimitView>,
    price: Price,
    side: BidorAsk,
    taker: Seq<char>,
    qty: nat,
)
    requires
        side_valid(levels, side),
    ensures
        filled_total(fills_at(levels, price, side, taker, qty)) == matched_at(levels, price, side, qty),
{
    if has_level(levels, price, side) {
        lemma_rank_bounds(levels, price, side);
        lemma_fills_account(levels[rank(levels, price, side) as int].orders, taker, qty);
    }
}

/// A level that a market order covers whole is gone from the side when the
/// order is done.
pub proof fn lemma_swept_level_leaves(levels: Seq<LimitView>, side: BidorAsk, qty: nat, i: int)
    requires
        side_valid(levels, side),
        0 <= i < levels.len(),
        qty >= book_volume(levels.take(i + 1)),
    ensures
        !has_level(sweep(levels, qty), levels[i].price, side),
        sweep(levels, qty).len() < levels.len() - i,
{
    lemma_sweep_reaches(levels, side, qty, i);
    lemma_sweep_best_first(levels, qty);
    lemma_sweep_valid(levels, side, qty);
    let now = sweep(levels, qty);
    assert forall|j: int| 0 <= j < now.len() implies (#[trigger] now[j]).price != levels[i].price by {
        let a = levels.len() - now.len() + j;
        assert(now[j].price == levels[a].price);
        assert(better(levels[i].price, levels[a].price, side));
    }
    lemma_has_level(now, levels[i].price, side);
}

/// A market order that covers the first levels of a side whole leaves fewer
/// levels than stood behind them.
proof fn lemma_sweep_reaches(levels: Seq<LimitView>, side: BidorAsk, qty: nat, i: int)
    requires
        side_valid(levels, side),
        0 <= i < levels.len(),
        qty >= book_volume(levels.take(i + 1)),
    ensures
        sweep(levels, qty).len() < levels.len() - i,
    decreases levels.len(),
{
    let rest = levels.skip(1);
    assert(levels.take(i + 1)[0] == levels[0]);
    assert(levels.take(i + 1).skip(1) =~= rest.take(i));
    assert(levels[0].orders.len() > 0);
    assert(levels[0].orders[0].size > 0);
    assert(total_size(levels[0].orders) > 0);
    let less = (qty - total_size(levels[0].orders)) as nat;
    if i == 0 {
        assert(book_volume(rest.take(0)) == 0);
        lemma_sweep_best_first(rest, less);
    } else {
        lemma_remove_valid(levels, side, 0);
        assert(levels.remove(0) =~= rest);
        lemma_sweep_reaches(rest, side, less, i - 1);
    }
}

} // verus!
