//! The mathematical model of the engine: book ordering, the matching walk,
//! sorted insertion, identity lookup, and the depth-query arithmetic, all
//! as specification functions over sequences of orders.

use crate::order::Fill;
use crate::order::LimitReport;
use crate::order::Order;
use crate::order::OrderSide;
use crate::order::OrderType;
use vstd::prelude::*;

verus! {

/// `a` stands strictly closer to the top of `side`'s book than `b`:
/// the side-favorable price first (higher for buys, lower for sells),
/// then the lower sequence number (earlier admission) on equal prices.
pub open spec fn ranks_ahead(side: OrderSide, a: Order, b: Order) -> bool {
    ||| match side {
        OrderSide::Buy => a.price > b.price,
        OrderSide::Sell => a.price < b.price,
    }
    ||| (a.price == b.price && a.order_number < b.order_number)
}

/// A well-formed side book: only orders of that side, all with positive
/// size, strictly sorted best-first, and pairwise distinct sequence numbers.
pub open spec fn book_ok(side: OrderSide, s: Seq<Order>) -> bool {
    &&& forall|i: int| 0 <= i < s.len() ==> (#[trigger] s[i]).order_side == side
    &&& forall|i: int| 0 <= i < s.len() ==> (#[trigger] s[i]).size > 0
    &&& forall|i: int, j: int|
        0 <= i < j < s.len() ==> ranks_ahead(side, #[trigger] s[i], #[trigger] s[j])
    &&& forall|i: int, j: int|
        0 <= i < j < s.len()
            ==> (#[trigger] s[i]).order_number != (#[trigger] s[j]).order_number
}

/// Every resting sequence number lies below `bound` (the engine's counter).
pub open spec fn numbers_below(s: Seq<Order>, bound: i64) -> bool {
    forall|i: int| 0 <= i < s.len() ==> (#[trigger] s[i]).order_number < bound
}

/// The aggressor crosses the resting order: market orders always do;
/// otherwise the resting price must be at or inside the aggressor's limit.
pub open spec fn crosses(agg: Order, passive: Order) -> bool {
    ||| agg.order_type == OrderType::Market
    ||| match agg.order_side {
        OrderSide::Buy => passive.price <= agg.price,
        OrderSide::Sell => passive.price >= agg.price,
    }
}

/// The fill produced when the aggressor takes `size` units from `passive`:
/// priced at the passive order's price, in the aggressor's direction.
pub open spec fn fill_of(agg: Order, passive: Order, size: int, now: i64) -> Fill {
    Fill {
        size: size as i64,
        price: passive.price,
        direction: agg.order_side,
        aggressor_id: agg.order_id,
        passive_id: passive.order_id,
        timestamp: now,
        fill_id: 0,
    }
}

/// The matching walk over the opposite book, best order first. Yields the
/// fills in the order they occur, the aggressor's unmatched remainder, and
/// the opposite book after matching: fully consumed orders are removed and
/// a partially consumed best order keeps its place with its size reduced.
pub open spec fn walk(agg: Order, remaining: int, opp: Seq<Order>, now: i64) -> (
    Seq<Fill>,
    int,
    Seq<Order>,
)
    decreases opp.len(),
{
    if opp.len() == 0 || remaining <= 0 {
        (Seq::<Fill>::empty(), remaining, opp)
    } else if !crosses(agg, opp[0]) {
        (Seq::<Fill>::empty(), remaining, opp)
    } else if remaining < opp[0].size {
        (
            seq![fill_of(agg, opp[0], remaining, now)],
            0,
            opp.update(0, Order { size: (opp[0].size - remaining) as i64, ..opp[0] }),
        )
    } else {
        let rest = walk(agg, remaining - opp[0].size, opp.drop_first(), now);
        (seq![fill_of(agg, opp[0], opp[0].size as int, now)] + rest.0, rest.1, rest.2)
    }
}

/// Total quantity reported by a sequence of fills.
pub open spec fn sum_fills(fills: Seq<Fill>) -> int
    decreases fills.len(),
{
    if fills.len() == 0 {
        0
    } else {
        fills[0].size + sum_fills(fills.drop_first())
    }
}

/// Index at which `o` enters `side`'s book: before the first resting order
/// it outranks, after everything that outranks it.
pub open spec fn insertion_point(side: OrderSide, s: Seq<Order>, o: Order) -> int
    decreases s.len(),
{
    if s.len() == 0 {
        0
    } else if ranks_ahead(side, o, s[0]) {
        0
    } else {
        1 + insertion_point(side, s.drop_first(), o)
    }
}

/// `side`'s book after `o` takes its priority position.
pub open spec fn insert_sorted(side: OrderSide, s: Seq<Order>, o: Order) -> Seq<Order> {
    s.insert(insertion_point(side, s, o), o)
}

/// Index of the resting order with sequence number `n`, or -1 if none.
pub open spec fn index_of_number(s: Seq<Order>, n: i64) -> int
    decreases s.len(),
{
    if s.len() == 0 {
        -1
    } else if s[0].order_number == n {
        0
    } else if index_of_number(s.drop_first(), n) < 0 {
        -1
    } else {
        1 + index_of_number(s.drop_first(), n)
    }
}

/// Magnitude of an integer.
pub open spec fn mag(x: int) -> int {
    if x < 0 {
        -x
    } else {
        x
    }
}

/// Sum over the book of size times price magnitude: a bound on every
/// size-weighted price sum a depth query can accumulate.
pub open spec fn weight_bound(s: Seq<Order>) -> int
    decreases s.len(),
{
    if s.len() == 0 {
        0
    } else {
        s[0].size * mag(s[0].price as int) + weight_bound(s.drop_first())
    }
}

/// Total resting size of the book.
pub open spec fn total_size(s: Seq<Order>) -> int
    decreases s.len(),
{
    if s.len() == 0 {
        0
    } else {
        s[0].size + total_size(s.drop_first())
    }
}

/// The price is at or better than the limit `num / den` (with `den > 0`)
/// for a participant trading in `direction` against the opposite book:
/// buyers want prices at or below the limit, sellers at or above.
pub open spec fn favorable_price(direction: OrderSide, price: int, num: int, den: int) -> bool {
    match direction {
        OrderSide::Buy => price * den <= num,
        OrderSide::Sell => price * den >= num,
    }
}

/// The running volume-weighted average `swp / found` stays at or inside the
/// limit `num / den` for a participant trading in `direction`.
pub open spec fn vwap_within(
    direction: OrderSide,
    swp: int,
    found: int,
    num: int,
    den: int,
) -> bool {
    match direction {
        OrderSide::Buy => swp * den <= num * found,
        OrderSide::Sell => swp * den >= num * found,
    }
}

/// Largest additional quantity of `o` that keeps the cumulative weighted
/// average within the limit `num / den`, given the already accumulated
/// weighted sum `swp` over `found` units: the whole order when its price is
/// favorable, otherwise the floor of
/// `(swp - (num/den) * found) / ((num/den) - price)` clamped to
/// `[0, o.size]`.
pub open spec fn could_add_spec(
    direction: OrderSide,
    swp: int,
    found: int,
    o: Order,
    num: int,
    den: int,
) -> int {
    if favorable_price(direction, o.price as int, num, den) {
        o.size as int
    } else {
        let qn = match direction {
            OrderSide::Buy => num * found - swp * den,
            OrderSide::Sell => swp * den - num * found,
        };
        let qd = match direction {
            OrderSide::Buy => o.price * den - num,
            OrderSide::Sell => num - o.price * den,
        };
        let q = qn / qd;
        if q < 0 {
            0
        } else if q > o.size {
            o.size as int
        } else {
            q
        }
    }
}

/// Accumulation of `size_at_limit`: walk the opposite book in priority
/// order, adding from each order the largest quantity that keeps the
/// running weighted average within the limit, and stop at the first order
/// that can contribute nothing. Yields the weighted sum and the total
/// included size.
pub open spec fn depth_walk(
    direction: OrderSide,
    opp: Seq<Order>,
    num: int,
    den: int,
    swp: int,
    found: int,
) -> (int, int)
    decreases opp.len(),
{
    if opp.len() == 0 {
        (swp, found)
    } else {
        let q = could_add_spec(direction, swp, found, opp[0], num, den);
        if q <= 0 {
            (swp, found)
        } else {
            depth_walk(direction, opp.drop_first(), num, den, swp + q * opp[0].price, found + q)
        }
    }
}

/// Accumulation of `limit_at_size`: walk the opposite book in priority
/// order until `unfound` units are accounted for or the book is exhausted;
/// the last order contributes only the remainder needed. Yields the
/// weighted sum and the unsatisfied remainder.
pub open spec fn fill_walk(opp: Seq<Order>, unfound: int, swp: int) -> (int, int)
    decreases opp.len(),
{
    if opp.len() == 0 {
        (swp, unfound)
    } else if unfound <= opp[0].size {
        (swp + unfound * opp[0].price, 0)
    } else {
        fill_walk(opp.drop_first(), unfound - opp[0].size, swp + opp[0].size * opp[0].price)
    }
}

/// Result of `size_at_limit` over the opposite book: the empty result when
/// that book is empty or nothing can be included, else the weighted sum
/// magnitude and included size of the depth walk.
pub open spec fn depth_report(
    direction: OrderSide,
    opp: Seq<Order>,
    num: int,
    den: int,
) -> Option<LimitReport> {
    if opp.len() == 0 {
        None
    } else {
        let r = depth_walk(direction, opp, num, den, 0, 0);
        if r.1 == 0 {
            None
        } else {
            Some(LimitReport { size_weighted_price: mag(r.0) as i64, size: r.1 as i64 })
        }
    }
}

/// Result of `limit_at_size` over the opposite book: the empty result when
/// the requested size is zero, else the weighted sum magnitude and the size
/// actually found (which falls short of the request on a thin book).
pub open spec fn fill_report(opp: Seq<Order>, size: int) -> Option<LimitReport> {
    if size == 0 {
        None
    } else {
        let r = fill_walk(opp, size, 0);
        Some(LimitReport { size_weighted_price: mag(r.0) as i64, size: (size - r.1) as i64 })
    }
}

/// The priority order is total on orders with distinct sequence numbers.
pub proof fn lemma_ranks_ahead_total(side: OrderSide, a: Order, b: Order)
    requires
        a.order_number != b.order_number,
        !ranks_ahead(side, a, b),
    ensures
        ranks_ahead(side, b, a),
{
}

/// `insertion_point` is the index of the first resting order that `o`
/// outranks, or the book's length when it outranks none.
pub proof fn lemma_insertion_point_char(side: OrderSide, s: Seq<Order>, o: Order)
    ensures
        0 <= insertion_point(side, s, o) <= s.len(),
        forall|j: int|
            0 <= j < insertion_point(side, s, o) ==> !ranks_ahead(side, o, #[trigger] s[j]),
        insertion_point(side, s, o) < s.len()
            ==> ranks_ahead(side, o, s[insertion_point(side, s, o)]),
    decreases s.len(),
{
    if s.len() == 0 {
    } else if ranks_ahead(side, o, s[0]) {
    } else {
        lemma_insertion_point_char(side, s.drop_first(), o);
        let k = insertion_point(side, s, o);
        assert forall|j: int| 0 <= j < k implies !ranks_ahead(side, o, #[trigger] s[j]) by {
            if j > 0 {
                assert(s.drop_first()[j - 1] == s[j]);
            }
        }
        if k < s.len() {
            assert(s.drop_first()[k - 1] == s[k]);
        }
    }
}

/// Inserting a fresh, positive-sized order of the right side at its
/// priority position keeps the book well-formed.
pub proof fn lemma_insert_sorted_ok(side: OrderSide, s: Seq<Order>, o: Order)
    requires
        book_ok(side, s),
        o.order_side == side,
        o.size > 0,
        forall|i: int| 0 <= i < s.len() ==> (#[trigger] s[i]).order_number != o.order_number,
    ensures
        insert_sorted(side, s, o).len() == s.len() + 1,
        book_ok(side, insert_sorted(side, s, o)),
{
    let k = insertion_point(side, s, o);
    lemma_insertion_point_char(side, s, o);
    s.insert_ensures(k, o);
    let t = insert_sorted(side, s, o);
    assert forall|i: int| 0 <= i < t.len() implies (#[trigger] t[i]).order_side == side
        && t[i].size > 0 by {
        if i < k {
            assert(t[i] == s[i]);
        } else if i > k {
            assert(t[i] == s[i - 1]);
        }
    }
    assert forall|i: int, j: int| 0 <= i < j < t.len() implies ranks_ahead(
        side,
        #[trigger] t[i],
        #[trigger] t[j],
    ) && t[i].order_number != t[j].order_number by {
        if i < k && j < k {
            assert(t[i] == s[i] && t[j] == s[j]);
        } else if i < k && j == k {
            assert(t[i] == s[i]);
            lemma_ranks_ahead_total(side, o, s[i]);
        } else if i < k && j > k {
            assert(t[i] == s[i] && t[j] == s[j - 1]);
        } else if i == k && j > k {
            assert(t[j] == s[j - 1]);
            assert(ranks_ahead(side, o, s[k]));
            if j - 1 > k {
                assert(ranks_ahead(side, s[k], s[j - 1]));
            }
        } else {
            assert(t[i] == s[i - 1] && t[j] == s[j - 1]);
        }
    }
}

/// Sorted insertion introduces no sequence number at or above a bound that
/// the inserted order itself respects.
pub proof fn lemma_insert_sorted_numbers(side: OrderSide, s: Seq<Order>, o: Order, bound: i64)
    requires
        numbers_below(s, bound),
        o.order_number < bound,
    ensures
        numbers_below(insert_sorted(side, s, o), bound),
{
    let k = insertion_point(side, s, o);
    lemma_insertion_point_char(side, s, o);
    s.insert_ensures(k, o);
    let t = insert_sorted(side, s, o);
    assert forall|j: int| 0 <= j < t.len() implies (#[trigger] t[j]).order_number < bound by {
        if j < k {
            assert(t[j] == s[j]);
        } else if j > k {
            assert(t[j] == s[j - 1]);
        }
    }
}

/// What `index_of_number` finds: a valid index of the first order bearing
/// the number, or -1 exactly when no resting order bears it.
pub proof fn lemma_index_of_number_char(s: Seq<Order>, n: i64)
    ensures
        -1 <= index_of_number(s, n) < s.len(),
        index_of_number(s, n) >= 0 ==> s[index_of_number(s, n)].order_number == n,
        index_of_number(s, n) >= 0 ==> forall|j: int|
            0 <= j < index_of_number(s, n) ==> (#[trigger] s[j]).order_number != n,
        index_of_number(s, n) < 0 ==> forall|j: int|
            0 <= j < s.len() ==> (#[trigger] s[j]).order_number != n,
    decreases s.len(),
{
    if s.len() == 0 {
    } else if s[0].order_number == n {
    } else {
        lemma_index_of_number_char(s.drop_first(), n);
        let i = index_of_number(s, n);
        assert forall|j: int| 0 <= j < s.len() && (i < 0 || j < i) implies (#[trigger] s[j]).order_number
            != n by {
            if j > 0 {
                assert(s.drop_first()[j - 1] == s[j]);
            }
        }
        if i >= 0 {
            assert(s.drop_first()[i - 1] == s[i]);
        }
    }
}

/// Removing any resting order keeps the book well-formed; the other
/// orders keep their relative positions.
pub proof fn lemma_book_ok_remove(side: OrderSide, s: Seq<Order>, i: int)
    requires
        book_ok(side, s),
        0 <= i < s.len(),
    ensures
        s.remove(i).len() == s.len() - 1,
        forall|j: int| 0 <= j < i ==> #[trigger] s.remove(i)[j] == s[j],
        forall|j: int| i <= j < s.len() - 1 ==> #[trigger] s.remove(i)[j] == s[j + 1],
        book_ok(side, s.remove(i)),
{
    s.remove_ensures(i);
    let t = s.remove(i);
    assert forall|a: int, b: int| 0 <= a < b < t.len() implies ranks_ahead(
        side,
        #[trigger] t[a],
        #[trigger] t[b],
    ) && t[a].order_number != t[b].order_number by {
        let a0 = if a < i { a } else { a + 1 };
        let b0 = if b < i { b } else { b + 1 };
        assert(t[a] == s[a0] && t[b] == s[b0]);
    }
    assert forall|a: int| 0 <= a < t.len() implies (#[trigger] t[a]).order_side == side
        && t[a].size > 0 by {
        let a0 = if a < i { a } else { a + 1 };
        assert(t[a] == s[a0]);
    }
}

/// Book weight and size sums are nonnegative when no size is negative.
pub proof fn lemma_sums_nonneg(s: Seq<Order>)
    requires
        forall|i: int| 0 <= i < s.len() ==> (#[trigger] s[i]).size >= 0,
    ensures
        weight_bound(s) >= 0,
        total_size(s) >= 0,
    decreases s.len(),
{
    if s.len() == 0 {
    } else {
        assert forall|i: int|
            0 <= i < s.drop_first().len() implies (#[trigger] s.drop_first()[i]).size >= 0 by {
            assert(s.drop_first()[i] == s[i + 1]);
        }
        lemma_sums_nonneg(s.drop_first());
        assert(s[0].size * mag(s[0].price as int) >= 0) by (nonlinear_arith)
            requires
                s[0].size >= 0,
                mag(s[0].price as int) >= 0,
        ;
    }
}

/// Peeling one order off the remainder of the book splits its sums.
pub proof fn lemma_sums_skip_step(s: Seq<Order>, i: int)
    requires
        0 <= i < s.len(),
    ensures
        weight_bound(s.skip(i)) == s[i].size * mag(s[i].price as int) + weight_bound(
            s.skip(i + 1),
        ),
        total_size(s.skip(i)) == s[i].size + total_size(s.skip(i + 1)),
{
    assert(s.skip(i)[0] == s[i]);
    assert(s.skip(i).drop_first() =~= s.skip(i + 1));
}

/// Including `could_add_spec` units of `o` is sound: the quantity lies in
/// `[0, o.size]` and the running weighted average stays within the limit.
pub proof fn lemma_vwap_step(
    direction: OrderSide,
    swp: int,
    found: int,
    o: Order,
    num: int,
    den: int,
)
    requires
        den > 0,
        found >= 0,
        o.size >= 0,
        vwap_within(direction, swp, found, num, den),
    ensures
        0 <= could_add_spec(direction, swp, found, o, num, den) <= o.size,
        vwap_within(
            direction,
            swp + could_add_spec(direction, swp, found, o, num, den) * o.price,
            found + could_add_spec(direction, swp, found, o, num, den),
            num,
            den,
        ),
{
    let p = o.price as int;
    let q = could_add_spec(direction, swp, found, o, num, den);
    if favorable_price(direction, p, num, den) {
        match direction {
            OrderSide::Buy => {
                assert((swp + q * p) * den <= num * (found + q)) by (nonlinear_arith)
                    requires
                        swp * den <= num * found,
                        p * den <= num,
                        q >= 0,
                        den > 0,
                ;
            },
            OrderSide::Sell => {
                assert((swp + q * p) * den >= num * (found + q)) by (nonlinear_arith)
                    requires
                        swp * den >= num * found,
                        p * den >= num,
                        q >= 0,
                        den > 0,
                ;
            },
        }
    } else {
        let qn = match direction {
            OrderSide::Buy => num * found - swp * den,
            OrderSide::Sell => swp * den - num * found,
        };
        let qd = match direction {
            OrderSide::Buy => p * den - num,
            OrderSide::Sell => num - p * den,
        };
        assert(qn >= 0);
        assert(qd > 0);
        let q0 = qn / qd;
        vstd::arithmetic::div_mod::lemma_div_pos_is_pos(qn, qd);
        vstd::arithmetic::div_mod::lemma_fundamental_div_mod(qn, qd);
        vstd::arithmetic::div_mod::lemma_mod_division_less_than_divisor(qn, qd);
        assert(q0 * qd <= qn);
        assert(q <= q0 && 0 <= q <= o.size);
        assert(q * qd <= qn) by (nonlinear_arith)
            requires
                q <= q0,
                qd > 0,
                q0 * qd <= qn,
        ;
        match direction {
            OrderSide::Buy => {
                assert((swp + q * p) * den <= num * (found + q)) by (nonlinear_arith)
                    requires
                        q * (p * den - num) <= num * found - swp * den,
                ;
            },
            OrderSide::Sell => {
                assert((swp + q * p) * den >= num * (found + q)) by (nonlinear_arith)
                    requires
                        q * (num - p * den) <= swp * den - num * found,
                ;
            },
        }
    }
}

/// The matching walk leaves a well-formed opposite book: a suffix of the
/// starting book in which only the first order may have shrunk, and every
/// surviving order keeps its price, identity and fields.
pub proof fn lemma_walk_book(
    side: OrderSide,
    agg: Order,
    remaining: int,
    opp: Seq<Order>,
    now: i64,
)
    requires
        book_ok(side, opp),
    ensures
        walk(agg, remaining, opp, now).2.len() <= opp.len(),
        book_ok(side, walk(agg, remaining, opp, now).2),
        forall|j: int|
            #![trigger walk(agg, remaining, opp, now).2[j]]
            0 <= j < walk(agg, remaining, opp, now).2.len() ==> {
                let r = walk(agg, remaining, opp, now).2;
                let i = opp.len() - r.len() + j;
                &&& r[j].order_number == opp[i].order_number
                &&& r[j].price == opp[i].price
                &&& r[j].order_side == opp[i].order_side
                &&& r[j].order_type == opp[i].order_type
                &&& r[j].order_id == opp[i].order_id
                &&& r[j].timestamp == opp[i].timestamp
                &&& 0 < r[j].size <= opp[i].size
            },
    decreases opp.len(),
{
    let r = walk(agg, remaining, opp, now).2;
    if opp.len() == 0 || remaining <= 0 {
    } else if !crosses(agg, opp[0]) {
    } else if remaining < opp[0].size {
        assert(r == opp.update(0, Order { size: (opp[0].size - remaining) as i64, ..opp[0] }));
        assert forall|a: int, b: int| 0 <= a < b < r.len() implies ranks_ahead(
            side,
            #[trigger] r[a],
            #[trigger] r[b],
        ) && r[a].order_number != r[b].order_number by {
            assert(r[a].price == opp[a].price && r[a].order_number == opp[a].order_number);
            assert(r[b].price == opp[b].price && r[b].order_number == opp[b].order_number);
        }
    } else {
        let tail = opp.drop_first();
        assert forall|a: int| 0 <= a < tail.len() implies (#[trigger] tail[a]) == opp[a + 1] by {}
        assert(book_ok(side, tail));
        lemma_walk_book(side, agg, remaining - opp[0].size, tail, now);
        assert(walk(agg, remaining - opp[0].size, tail, now).2 == r);
        assert forall|j: int| 0 <= j < r.len() implies {
            let i = opp.len() - r.len() + j;
            &&& (#[trigger] r[j]).order_number == opp[i].order_number
            &&& r[j].price == opp[i].price
            &&& r[j].order_side == opp[i].order_side
            &&& r[j].order_type == opp[i].order_type
            &&& r[j].order_id == opp[i].order_id
            &&& r[j].timestamp == opp[i].timestamp
            &&& 0 < r[j].size <= opp[i].size
        } by {
            let i0 = tail.len() - r.len() + j;
            assert(tail[i0] == opp[i0 + 1]);
        }
    }
}

} // verus!
