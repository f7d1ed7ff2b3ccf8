//! The engine's laws, proved once and for all over the model: conservation
//! of size through matching, the resting behavior of non-crossing and
//! immediate-or-cancel admissions, preservation of time priority, and
//! idempotence of cancellation.

use crate::book::add_post;
use crate::book::OrderBook;
use crate::model::book_ok;
use crate::model::crosses;
use crate::model::fill_of;
use crate::model::index_of_number;
use crate::model::insert_sorted;
use crate::model::insertion_point;
use crate::model::lemma_book_ok_remove;
use crate::model::lemma_index_of_number_char;
use crate::model::lemma_insertion_point_char;
use crate::model::lemma_walk_book;
use crate::model::numbers_below;
use crate::model::ranks_ahead;
use crate::model::sum_fills;
use crate::model::walk;
use crate::order::Fill;
use crate::order::Order;
use crate::order::OrderSide;
use crate::order::OrderType;
use vstd::prelude::*;

verus! {

/// Conservation through the matching walk: the fills' total size plus the
/// unmatched remainder equals the size the walk started with.
pub proof fn lemma_walk_conservation(agg: Order, remaining: int, opp: Seq<Order>, now: i64)
    requires
        0 <= remaining <= i64::MAX,
        forall|i: int| 0 <= i < opp.len() ==> (#[trigger] opp[i]).size >= 0,
    ensures
        0 <= walk(agg, remaining, opp, now).1 <= remaining,
        sum_fills(walk(agg, remaining, opp, now).0) + walk(agg, remaining, opp, now).1
            == remaining,
    decreases opp.len(),
{
    if opp.len() == 0 || remaining <= 0 {
    } else if !crosses(agg, opp[0]) {
    } else if remaining < opp[0].size {
        let f = fill_of(agg, opp[0], remaining, now);
        assert(seq![f].drop_first() =~= Seq::<Fill>::empty());
        assert(sum_fills(Seq::<Fill>::empty()) == 0);
        assert(sum_fills(seq![f]) == f.size);
    } else {
        assert forall|i: int|
            0 <= i < opp.drop_first().len() implies (#[trigger] opp.drop_first()[i]).size >= 0 by {
            assert(opp.drop_first()[i] == opp[i + 1]);
        }
        lemma_walk_conservation(agg, remaining - opp[0].size, opp.drop_first(), now);
        let f = fill_of(agg, opp[0], opp[0].size as int, now);
        let rest = walk(agg, remaining - opp[0].size, opp.drop_first(), now);
        assert((seq![f] + rest.0).drop_first() =~= rest.0);
        assert((seq![f] + rest.0)[0] == f);
        assert(sum_fills(seq![f] + rest.0) == f.size + sum_fills(rest.0));
    }
}

/// Conservation law for one admission: the sum of the fill sizes plus the
/// remaining size — rested on the order's own book, or discarded when its
/// behavior forbids resting — equals the admitted size.
pub proof fn lemma_add_conserves_size(
    pre: OrderBook,
    order: Order,
    now: i64,
    post: OrderBook,
    id: i64,
    fills: Seq<Fill>,
)
    requires
        pre.wf(),
        order.size > 0,
        add_post(pre, order, now, post, id, fills),
    ensures
        ({
            let agg = Order { order_number: pre.next_number(), timestamp: now, ..order };
            let w = walk(agg, order.size as int, pre.opposite_book(order.order_side), now);
            &&& sum_fills(fills) + w.1 == order.size
            &&& 0 <= w.1 <= order.size
            &&& (w.1 > 0 && order.order_type != OrderType::Ioc) ==> post.own_book(
                order.order_side,
            ) == insert_sorted(
                order.order_side,
                pre.own_book(order.order_side),
                Order { size: w.1 as i64, ..agg },
            )
            &&& (w.1 == 0 || order.order_type == OrderType::Ioc) ==> post.own_book(
                order.order_side,
            ) == pre.own_book(order.order_side)
        }),
{
    let agg = Order { order_number: pre.next_number(), timestamp: now, ..order };
    let opp = pre.opposite_book(order.order_side);
    assert forall|i: int| 0 <= i < opp.len() implies (#[trigger] opp[i]).size >= 0 by {
        match order.order_side {
            OrderSide::Buy => assert(pre.asks()[i].size > 0),
            OrderSide::Sell => assert(pre.bids()[i].size > 0),
        }
    }
    lemma_walk_conservation(agg, order.size as int, opp, now);
}

/// Non-crossing admissions rest: an admission against an empty opposite
/// book (with a behavior that permits resting) produces no fills and grows
/// its own side's resting count by exactly one — so N such admissions to
/// an empty opposite book leave exactly N resting orders.
pub proof fn lemma_admission_to_empty_opposite_rests(
    pre: OrderBook,
    order: Order,
    now: i64,
    post: OrderBook,
    id: i64,
    fills: Seq<Fill>,
)
    requires
        pre.wf(),
        order.size > 0,
        order.order_type != OrderType::Ioc,
        add_post(pre, order, now, post, id, fills),
        pre.opposite_book(order.order_side).len() == 0,
    ensures
        fills.len() == 0,
        post.own_book(order.order_side).len() == pre.own_book(order.order_side).len() + 1,
        post.opposite_book(order.order_side).len() == 0,
{
    let agg = Order { order_number: pre.next_number(), timestamp: now, ..order };
    let own = pre.own_book(order.order_side);
    let rested = Order { size: order.size, ..agg };
    lemma_insertion_point_char(order.order_side, own, rested);
    own.insert_ensures(insertion_point(order.order_side, own, rested), rested);
}

/// ImmediateOrCancel orders never rest: after such an admission, neither
/// book holds an order bearing the assigned identity, whether or not the
/// order was fully filled.
pub proof fn lemma_ioc_never_rests(
    pre: OrderBook,
    order: Order,
    now: i64,
    post: OrderBook,
    id: i64,
    fills: Seq<Fill>,
)
    requires
        pre.wf(),
        order.size > 0,
        order.order_type == OrderType::Ioc,
        add_post(pre, order, now, post, id, fills),
    ensures
        forall|i: int|
            0 <= i < post.bids().len() ==> (#[trigger] post.bids()[i]).order_number != id,
        forall|i: int|
            0 <= i < post.asks().len() ==> (#[trigger] post.asks()[i]).order_number != id,
{
    let agg = Order { order_number: pre.next_number(), timestamp: now, ..order };
    let opp = pre.opposite_book(order.order_side);
    let oside = match order.order_side {
        OrderSide::Buy => OrderSide::Sell,
        OrderSide::Sell => OrderSide::Buy,
    };
    lemma_walk_book(oside, agg, order.size as int, opp, now);
    let w2 = walk(agg, order.size as int, opp, now).2;
    assert forall|j: int| 0 <= j < w2.len() implies (#[trigger] w2[j]).order_number != id by {
        let i = opp.len() - w2.len() + j;
        assert(w2[j].order_number == opp[i].order_number);
        match order.order_side {
            OrderSide::Buy => assert(pre.asks()[i].order_number < pre.next_number()),
            OrderSide::Sell => assert(pre.bids()[i].order_number < pre.next_number()),
        }
    }
}

/// Partial fill preserves time priority: the walk leaves its last matched
/// order — the only one whose size may have shrunk — at the head of the
/// book with its sequence number unchanged, ranking ahead of every later
/// entry; on equal prices its sequence number stays the lower one.
pub proof fn lemma_partial_fill_keeps_priority(
    side: OrderSide,
    agg: Order,
    remaining: int,
    opp: Seq<Order>,
    now: i64,
)
    requires
        book_ok(side, opp),
    ensures
        ({
            let r = walk(agg, remaining, opp, now).2;
            &&& r.len() > 0 ==> {
                let i = opp.len() - r.len();
                &&& r[0].order_number == opp[i].order_number
                &&& r[0].price == opp[i].price
                &&& 0 < r[0].size <= opp[i].size
            }
            &&& forall|j: int|
                1 <= j < r.len() ==> ranks_ahead(side, r[0], #[trigger] r[j]) && (r[0].price
                    == r[j].price ==> r[0].order_number < r[j].order_number)
        }),
{
    lemma_walk_book(side, agg, remaining, opp, now);
}

/// A later-admitted order rests behind every earlier resting order of the
/// same price: sorted insertion places it after all of them, so partial
/// fills (which keep sequence numbers) never cost an order its place in
/// the queue at its price.
pub proof fn lemma_insert_behind_same_price(side: OrderSide, s: Seq<Order>, o: Order)
    requires
        book_ok(side, s),
        numbers_below(s, o.order_number),
    ensures
        0 <= insertion_point(side, s, o) <= s.len(),
        insert_sorted(side, s, o) == s.insert(insertion_point(side, s, o), o),
        forall|i: int|
            0 <= i < s.len() && (#[trigger] s[i]).price == o.price ==> i < insertion_point(
                side,
                s,
                o,
            ),
{
    lemma_insertion_point_char(side, s, o);
    let k = insertion_point(side, s, o);
    assert forall|i: int|
        0 <= i < s.len() && (#[trigger] s[i]).price == o.price implies i < k by {
        if i >= k {
            assert(ranks_ahead(side, o, s[k]));
            if i > k {
                assert(ranks_ahead(side, s[k], s[i]));
            }
            assert(ranks_ahead(side, o, s[i]));
            assert(s[i].order_number < o.order_number);
        }
    }
}

/// Idempotent cancellation: after a cancellation by identity succeeds,
/// that identity is no longer in the book, so a second `remove` with the
/// same identity finds nothing and returns false.
pub proof fn lemma_remove_idempotent(side: OrderSide, s: Seq<Order>, n: i64)
    requires
        book_ok(side, s),
        index_of_number(s, n) >= 0,
    ensures
        index_of_number(s.remove(index_of_number(s, n)), n) < 0,
{
    lemma_index_of_number_char(s, n);
    let i = index_of_number(s, n);
    lemma_book_ok_remove(side, s, i);
    let t = s.remove(i);
    lemma_index_of_number_char(t, n);
    let i2 = index_of_number(t, n);
    if i2 >= 0 {
        assert(t[i2].order_number == n);
        if i2 < i {
            assert(t[i2] == s[i2]);
            assert(s[i2].order_number != n);
        } else {
            assert(t[i2] == s[i2 + 1]);
            assert(s[i2 + 1].order_number != s[i].order_number);
        }
    }
}

} // verus!
