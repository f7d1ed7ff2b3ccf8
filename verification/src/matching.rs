//! Executable matching primitives: the priority comparator, sorted
//! insertion of a resting order, and the trade walk over the opposite book.

use crate::model::book_ok;
use crate::model::crosses;
use crate::model::fill_of;
use crate::model::insert_sorted;
use crate::model::insertion_point;
use crate::model::lemma_insert_sorted_numbers;
use crate::model::lemma_insert_sorted_ok;
use crate::model::lemma_insertion_point_char;
use crate::model::lemma_walk_book;
use crate::model::numbers_below;
use crate::model::ranks_ahead;
use crate::model::walk;
use crate::order::Fill;
use crate::order::Order;
use crate::order::OrderSide;
use crate::order::OrderType;
use vstd::prelude::*;

verus! {

/// The book comparator: whether `a` takes priority over `b` on `side`'s
/// book — the side-favorable price first (higher for buys, lower for
/// sells), then the lower sequence number (earlier admission) on equal
/// prices.
pub fn precedes(side: OrderSide, a: &Order, b: &Order) -> (r: bool)
    ensures
        r == ranks_ahead(side, *a, *b),
{
    let better_price = match side {
        OrderSide::Buy => a.price > b.price,
        OrderSide::Sell => a.price < b.price,
    };
    better_price || (a.price == b.price && a.order_number < b.order_number)
}

/// Inserts `o` at its priority position in `side`'s book.
pub(crate) fn rest_order(side: OrderSide, book: &mut Vec<Order>, o: Order)
    requires
        book_ok(side, old(book)@),
        o.order_side == side,
        o.size > 0,
        forall|i: int|
            0 <= i < old(book)@.len() ==> (#[trigger] old(book)@[i]).order_number
                != o.order_number,
    ensures
        final(book)@ == insert_sorted(side, old(book)@, o),
        book_ok(side, final(book)@),
        final(book)@.len() == old(book)@.len() + 1,
{
    let ghost s = book@;
    let mut k: usize = 0;
    while k < book.len() && !precedes(side, &o, &book[k])
        invariant
            book@ == s,
            0 <= k <= s.len(),
            forall|j: int| 0 <= j < k ==> !ranks_ahead(side, o, #[trigger] s[j]),
        decreases s.len() - k,
    {
        k += 1;
    }
    proof {
        lemma_insertion_point_char(side, s, o);
        let ip = insertion_point(side, s, o);
        if ip < k {
            assert(ranks_ahead(side, o, s[ip]));
        }
        if (k as int) < ip {
            assert(!ranks_ahead(side, o, s[k as int]));
        }
        assert(ip == k as int);
        lemma_insert_sorted_ok(side, s, o);
    }
    book.insert(k, o);
}

/// Runs the matching walk of the aggressor against the opposite book
/// (held on `side`), mutating it in place. Returns the fills in the order
/// they occurred and the aggressor's unmatched remainder.
pub(crate) fn run_walk(side: OrderSide, agg: Order, opp: &mut Vec<Order>, now: i64) -> (r: (
    Vec<Fill>,
    i64,
))
    requires
        book_ok(side, old(opp)@),
        agg.size > 0,
    ensures
        r.0@ == walk(agg, agg.size as int, old(opp)@, now).0,
        r.1 as int == walk(agg, agg.size as int, old(opp)@, now).1,
        final(opp)@ == walk(agg, agg.size as int, old(opp)@, now).2,
        book_ok(side, final(opp)@),
        0 <= r.1 <= agg.size,
{
    let ghost orig = opp@;
    let mut fills: Vec<Fill> = Vec::new();
    let mut remaining: i64 = agg.size;
    while opp.len() > 0 && remaining > 0
        invariant
            0 <= remaining <= agg.size,
            book_ok(side, opp@),
            walk(agg, agg.size as int, orig, now).0 == fills@ + walk(
                agg,
                remaining as int,
                opp@,
                now,
            ).0,
            walk(agg, agg.size as int, orig, now).1 == walk(agg, remaining as int, opp@, now).1,
            walk(agg, agg.size as int, orig, now).2 == walk(agg, remaining as int, opp@, now).2,
        ensures
            0 <= remaining <= agg.size,
            book_ok(side, opp@),
            walk(agg, agg.size as int, orig, now).0 == fills@ + walk(
                agg,
                remaining as int,
                opp@,
                now,
            ).0,
            walk(agg, agg.size as int, orig, now).1 == walk(agg, remaining as int, opp@, now).1,
            walk(agg, agg.size as int, orig, now).2 == walk(agg, remaining as int, opp@, now).2,
            opp@.len() == 0 || remaining == 0 || !crosses(agg, opp@[0]),
        decreases opp@.len(),
    {
        let ghost pre = opp@;
        let ghost rem_old = remaining as int;
        let ghost fills_old = fills@;
        let head: Order = opp[0];
        let does_cross = agg.order_type == OrderType::Market || (match agg.order_side {
            OrderSide::Buy => head.price <= agg.price,
            OrderSide::Sell => head.price >= agg.price,
        });
        if !does_cross {
            proof {
                assert(!crosses(agg, opp@[0]));
            }
            break ;
        }
        let mut fill = Fill {
            size: 0,
            price: head.price,
            direction: agg.order_side,
            aggressor_id: agg.order_id,
            passive_id: head.order_id,
            timestamp: now,
            fill_id: 0,
        };
        if remaining < head.size {
            fill.size = remaining;
            let updated = Order { size: head.size - remaining, ..head };
            opp.remove(0);
            opp.insert(0, updated);
            fills.push(fill);
            remaining = 0;
            proof {
                assert(opp@ =~= pre.update(0, updated));
                assert(fill == fill_of(agg, pre[0], rem_old, now));
                assert(walk(agg, rem_old, pre, now).0 =~= seq![fill]);
                assert(fills@ =~= fills_old + seq![fill]);
                assert(fills@ + walk(agg, 0int, opp@, now).0 =~= fills_old + walk(
                    agg,
                    rem_old,
                    pre,
                    now,
                ).0);
                assert forall|a: int, b: int| 0 <= a < b < opp@.len() implies ranks_ahead(
                    side,
                    #[trigger] opp@[a],
                    #[trigger] opp@[b],
                ) && opp@[a].order_number != opp@[b].order_number by {
                    assert(opp@[a].price == pre[a].price && opp@[a].order_number
                        == pre[a].order_number);
                    assert(opp@[b].price == pre[b].price && opp@[b].order_number
                        == pre[b].order_number);
                }
            }
            break ;
        } else {
            fill.size = head.size;
            opp.remove(0);
            remaining = remaining - head.size;
            fills.push(fill);
            proof {
                assert(opp@ =~= pre.drop_first());
                assert(fill == fill_of(agg, pre[0], pre[0].size as int, now));
                let rest = walk(agg, rem_old - pre[0].size, pre.drop_first(), now);
                assert(walk(agg, rem_old, pre, now).0 == seq![fill] + rest.0);
                assert(fills@ =~= fills_old + seq![fill]);
                assert(fills@ + rest.0 =~= fills_old + (seq![fill] + rest.0));
                assert forall|a: int| 0 <= a < opp@.len() implies (#[trigger] opp@[a])
                    == pre[a + 1] by {}
            }
        }
    }
    proof {
        assert(walk(agg, remaining as int, opp@, now).0 =~= Seq::<Fill>::empty());
        assert(walk(agg, agg.size as int, orig, now).0 =~= fills@);
        lemma_walk_book(side, agg, agg.size as int, orig, now);
    }
    (fills, remaining)
}

/// Matches the stamped aggressor against the opposite book and rests any
/// permitted remainder on its own book, both mutated in place. `bound` is
/// the engine counter: every sequence number stays below it.
pub(crate) fn match_and_rest(
    own_side: OrderSide,
    opp_side: OrderSide,
    agg: Order,
    own: &mut Vec<Order>,
    opp: &mut Vec<Order>,
    now: i64,
    bound: Ghost<i64>,
) -> (fills: Vec<Fill>)
    requires
        book_ok(opp_side, old(opp)@),
        book_ok(own_side, old(own)@),
        numbers_below(old(opp)@, bound@),
        numbers_below(old(own)@, bound@),
        agg.order_side == own_side,
        agg.size > 0,
        agg.order_number < bound@,
        forall|i: int|
            0 <= i < old(own)@.len() ==> (#[trigger] old(own)@[i]).order_number
                != agg.order_number,
    ensures
        fills@ == walk(agg, agg.size as int, old(opp)@, now).0,
        final(opp)@ == walk(agg, agg.size as int, old(opp)@, now).2,
        book_ok(opp_side, final(opp)@),
        book_ok(own_side, final(own)@),
        numbers_below(final(opp)@, bound@),
        numbers_below(final(own)@, bound@),
        final(own)@ == ({
            let w = walk(agg, agg.size as int, old(opp)@, now);
            if w.1 > 0 && agg.order_type != OrderType::Ioc {
                insert_sorted(own_side, old(own)@, Order { size: w.1 as i64, ..agg })
            } else {
                old(own)@
            }
        }),
{
    let ghost opp0 = opp@;
    let r = run_walk(opp_side, agg, opp, now);
    proof {
        lemma_walk_book(opp_side, agg, agg.size as int, opp0, now);
        assert forall|j: int|
            0 <= j < opp@.len() implies (#[trigger] opp@[j]).order_number < bound@ by {
            let w2 = walk(agg, agg.size as int, opp0, now).2;
            let i = opp0.len() - w2.len() + j;
            assert(w2[j].order_number == opp0[i].order_number);
        }
    }
    if r.1 > 0 && agg.order_type != OrderType::Ioc {
        let rested = Order { size: r.1, ..agg };
        rest_order(own_side, own, rested);
        proof {
            lemma_insert_sorted_numbers(own_side, old(own)@, rested, bound@);
        }
    }
    r.0
}

} // verus!
