//! The matching engine: two priority-ordered side books and a monotonic
//! sequence counter, with admission, cancellation, content update and
//! top-of-book access.

use crate::clock::get_epoch_ms;
use crate::depth::scan_limit_at_size;
use crate::depth::scan_size_at_limit;
use crate::matching::match_and_rest;
use crate::matching::rest_order;
use crate::model::book_ok;
use crate::model::depth_report;
use crate::model::fill_report;
use crate::model::index_of_number;
use crate::model::insert_sorted;
use crate::model::lemma_book_ok_remove;
use crate::model::lemma_index_of_number_char;
use crate::model::lemma_insert_sorted_numbers;
use crate::model::numbers_below;
use crate::model::total_size;
use crate::model::walk;
use crate::model::weight_bound;
use crate::order::Fill;
use crate::order::LimitReport;
use crate::order::Order;
use crate::order::OrderSide;
use crate::order::OrderType;
use vstd::prelude::*;

verus! {

/// A single instrument's order book. Buys and sells rest in separate
/// books, each sorted best-first by side-favorable price and then by
/// ascending sequence number; the counter assigns each admitted order a
/// fresh identity.
pub struct OrderBook {
    buy_orders: Vec<Order>,
    sell_orders: Vec<Order>,
    counter: i64,
}

/// The full effect of one admission: the engine stamps the order with the
/// next sequence number and the given timestamp, walks the opposite book
/// producing the fills, and rests any positive remainder at its priority
/// position — unless the order's behavior forbids resting.
pub open spec fn add_post(
    pre: OrderBook,
    order: Order,
    now: i64,
    post: OrderBook,
    id: i64,
    fills: Seq<Fill>,
) -> bool {
    let agg = Order { order_number: pre.next_number(), timestamp: now, ..order };
    let w = walk(agg, order.size as int, pre.opposite_book(order.order_side), now);
    let rests = w.1 > 0 && order.order_type != OrderType::Ioc;
    let rested = Order { size: w.1 as i64, ..agg };
    &&& id == pre.next_number()
    &&& post.next_number() == pre.next_number() + 1
    &&& fills == w.0
    &&& post.opposite_book(order.order_side) == w.2
    &&& post.own_book(order.order_side) == (if rests {
        insert_sorted(order.order_side, pre.own_book(order.order_side), rested)
    } else {
        pre.own_book(order.order_side)
    })
}

impl OrderBook {
    /// The resting buy orders, best (highest price, then earliest) first.
    pub closed spec fn bids(&self) -> Seq<Order> {
        self.buy_orders@
    }

    /// The resting sell orders, best (lowest price, then earliest) first.
    pub closed spec fn asks(&self) -> Seq<Order> {
        self.sell_orders@
    }

    /// The sequence number the next admitted order will receive.
    pub closed spec fn next_number(&self) -> i64 {
        self.counter
    }

    /// The book on which an order of `side` would rest.
    pub open spec fn own_book(&self, side: OrderSide) -> Seq<Order> {
        match side {
            OrderSide::Buy => self.bids(),
            OrderSide::Sell => self.asks(),
        }
    }

    /// The book an aggressor of `side` matches against.
    pub open spec fn opposite_book(&self, side: OrderSide) -> Seq<Order> {
        match side {
            OrderSide::Buy => self.asks(),
            OrderSide::Sell => self.bids(),
        }
    }

    /// Engine invariant: both side books are well-formed and every resting
    /// sequence number lies below the counter, so freshly assigned
    /// identities never collide with resting ones.
    pub open spec fn wf(&self) -> bool {
        &&& book_ok(OrderSide::Buy, self.bids())
        &&& book_ok(OrderSide::Sell, self.asks())
        &&& numbers_below(self.bids(), self.next_number())
        &&& numbers_below(self.asks(), self.next_number())
    }

    /// An empty engine with its counter initialized.
    pub fn new() -> (r: OrderBook)
        ensures
            r.wf(),
            r.bids().len() == 0,
            r.asks().len() == 0,
            r.next_number() == 1230,
    {
        OrderBook { buy_orders: Vec::new(), sell_orders: Vec::new(), counter: 1230 }
    }

    /// The best order an aggressor of `side` would match against — the top
    /// of the opposite book — or `None` when that book is empty.
    pub fn next(&mut self, side: OrderSide) -> (r: Option<Order>)
        ensures
            *final(self) == *old(self),
            (match side {
                OrderSide::Buy => (if old(self).asks().len() > 0 {
                    r == Some(old(self).asks()[0])
                } else {
                    r is None
                }),
                OrderSide::Sell => (if old(self).bids().len() > 0 {
                    r == Some(old(self).bids()[0])
                } else {
                    r is None
                }),
            }),
    {
        match side {
            OrderSide::Buy => {
                if self.sell_orders.len() > 0 {
                    Some(self.sell_orders[0])
                } else {
                    None
                }
            },
            OrderSide::Sell => {
                if self.buy_orders.len() > 0 {
                    Some(self.buy_orders[0])
                } else {
                    None
                }
            },
        }
    }

    /// The matching core: stamps nothing, but walks the opposite book with
    /// the already-stamped aggressor and rests any permitted remainder.
    #[verifier::rlimit(50)]
    fn trade(&mut self, order: Order, now: i64) -> (fills: Vec<Fill>)
        requires
            old(self).wf(),
            order.size > 0,
            order.order_number < old(self).next_number(),
            forall|i: int|
                0 <= i < old(self).own_book(order.order_side).len() ==> (#[trigger] old(
                    self,
                ).own_book(order.order_side)[i]).order_number != order.order_number,
        ensures
            final(self).wf(),
            final(self).next_number() == old(self).next_number(),
            fills@ == walk(
                order,
                order.size as int,
                old(self).opposite_book(order.order_side),
                now,
            ).0,
            final(self).opposite_book(order.order_side) == walk(
                order,
                order.size as int,
                old(self).opposite_book(order.order_side),
                now,
            ).2,
            final(self).own_book(order.order_side) == ({
                let w = walk(order, order.size as int, old(self).opposite_book(order.order_side), now);
                if w.1 > 0 && order.order_type != OrderType::Ioc {
                    insert_sorted(
                        order.order_side,
                        old(self).own_book(order.order_side),
                        Order { size: w.1 as i64, ..order },
                    )
                } else {
                    old(self).own_book(order.order_side)
                }
            }),
    {
        let ghost pre = *old(self);
        let ghost bound = pre.next_number();
        match order.order_side {
            OrderSide::Buy => {
                proof {
                    assert forall|i: int|
                        0 <= i < self.buy_orders@.len() implies (#[trigger] self.buy_orders@[i]).order_number
                        != order.order_number by {
                        assert(pre.own_book(order.order_side)[i].order_number
                            != order.order_number);
                    }
                }
                match_and_rest(
                    OrderSide::Buy,
                    OrderSide::Sell,
                    order,
                    &mut self.buy_orders,
                    &mut self.sell_orders,
                    now,
                    Ghost(bound),
                )
            },
            OrderSide::Sell => {
                proof {
                    assert forall|i: int|
                        0 <= i < self.sell_orders@.len() implies (#[trigger] self.sell_orders@[i]).order_number
                        != order.order_number by {
                        assert(pre.own_book(order.order_side)[i].order_number
                            != order.order_number);
                    }
                }
                match_and_rest(
                    OrderSide::Sell,
                    OrderSide::Buy,
                    order,
                    &mut self.sell_orders,
                    &mut self.buy_orders,
                    now,
                    Ghost(bound),
                )
            },
        }
    }

    /// Admission at a caller-supplied timestamp: assigns the next sequence
    /// number, matches against the opposite book, rests any permitted
    /// remainder, and returns the assigned identity with the fills in the
    /// order they occurred.
    pub fn add_at_time(&mut self, order: Order, now: i64) -> (r: (i64, Vec<Fill>))
        requires
            old(self).wf(),
            order.size > 0,
            old(self).next_number() < i64::MAX,
        ensures
            final(self).wf(),
            add_post(*old(self), order, now, *final(self), r.0, r.1@),
    {
        let ghost pre = *old(self);
        let number = self.counter;
        self.counter = self.counter + 1;
        let stamped_order = Order { order_number: number, timestamp: now, ..order };
        proof {
            assert forall|i: int|
                0 <= i < self.own_book(order.order_side).len() implies (#[trigger] self.own_book(
                order.order_side,
            )[i]).order_number != number by {
                assert(pre.own_book(order.order_side)[i].order_number < pre.next_number());
            }
        }
        let fills = self.trade(stamped_order, now);
        (number, fills)
    }

    /// Admission: like `add_at_time`, with the timestamp read from the
    /// system clock — so the exact effect is that of `add_post` at some
    /// timestamp.
    pub fn add(&mut self, order: Order) -> (r: (i64, Vec<Fill>))
        requires
            old(self).wf(),
            order.size > 0,
            old(self).next_number() < i64::MAX,
        ensures
            final(self).wf(),
            r.0 == old(self).next_number(),
            final(self).next_number() == old(self).next_number() + 1,
            exists|now: i64| add_post(*old(self), order, now, *final(self), r.0, r.1@),
    {
        let ghost pre = *old(self);
        let now = get_epoch_ms();
        let r = self.add_at_time(order, now);
        proof {
            assert(add_post(pre, order, now, *self, r.0, r.1@));
        }
        r
    }

    /// Cancellation by identity: removes the resting order of `order`'s
    /// side bearing `order.order_number`, reporting whether one was found.
    /// No other field of the argument matters; an unknown or already
    /// removed identity returns false and changes nothing.
    pub fn remove(&mut self, order: Order) -> (r: bool)
        requires
            old(self).wf(),
        ensures
            final(self).wf(),
            final(self).next_number() == old(self).next_number(),
            final(self).opposite_book(order.order_side) == old(self).opposite_book(
                order.order_side,
            ),
            ({
                let b = old(self).own_book(order.order_side);
                let i = index_of_number(b, order.order_number);
                if i >= 0 {
                    r && final(self).own_book(order.order_side) == b.remove(i)
                } else {
                    !r && final(self).own_book(order.order_side) == b
                }
            }),
    {
        let ghost pre = *old(self);
        let r = match order.order_side {
            OrderSide::Buy => remove_by_number(
                OrderSide::Buy,
                &mut self.buy_orders,
                order.order_number,
            ),
            OrderSide::Sell => remove_by_number(
                OrderSide::Sell,
                &mut self.sell_orders,
                order.order_number,
            ),
        };
        proof {
            let b = pre.own_book(order.order_side);
            let i = index_of_number(b, order.order_number);
            if i >= 0 {
                let side = order.order_side;
                lemma_index_of_number_char(b, order.order_number);
                lemma_book_ok_remove(side, b, i);
                assert forall|j: int|
                    0 <= j < b.remove(i).len() implies (#[trigger] b.remove(i)[j]).order_number
                    < pre.next_number() by {
                    if j < i {
                        assert(b.remove(i)[j] == b[j]);
                    } else {
                        assert(b.remove(i)[j] == b[j + 1]);
                    }
                }
            }
        }
        r
    }

    /// Content update by identity: the resting order of `order`'s side
    /// bearing `order.order_number` is replaced by `order` (re-sorted, so
    /// a changed price moves it while a pure size change keeps its time
    /// priority), and the previous order is returned. With no such resting
    /// order, `order` simply rests and `None` is returned.
    pub fn replace(&mut self, order: Order) -> (r: Option<Order>)
        requires
            old(self).wf(),
            order.size > 0,
            order.order_number < old(self).next_number(),
        ensures
            final(self).wf(),
            final(self).next_number() == old(self).next_number(),
            final(self).opposite_book(order.order_side) == old(self).opposite_book(
                order.order_side,
            ),
            ({
                let b = old(self).own_book(order.order_side);
                let i = index_of_number(b, order.order_number);
                if i >= 0 {
                    r == Some(b[i]) && final(self).own_book(order.order_side) == insert_sorted(
                        order.order_side,
                        b.remove(i),
                        order,
                    )
                } else {
                    r is None && final(self).own_book(order.order_side) == insert_sorted(
                        order.order_side,
                        b,
                        order,
                    )
                }
            }),
    {
        let ghost pre = *old(self);
        let r = match order.order_side {
            OrderSide::Buy => replace_in(OrderSide::Buy, &mut self.buy_orders, order),
            OrderSide::Sell => replace_in(OrderSide::Sell, &mut self.sell_orders, order),
        };
        proof {
            let side = order.order_side;
            let b = pre.own_book(side);
            let i = index_of_number(b, order.order_number);
            if i >= 0 {
                lemma_index_of_number_char(b, order.order_number);
                lemma_book_ok_remove(side, b, i);
                assert forall|j: int|
                    0 <= j < b.remove(i).len() implies (#[trigger] b.remove(i)[j]).order_number
                    < pre.next_number() by {
                    if j < i {
                        assert(b.remove(i)[j] == b[j]);
                    } else {
                        assert(b.remove(i)[j] == b[j + 1]);
                    }
                }
                lemma_insert_sorted_numbers(side, b.remove(i), order, pre.next_number());
            } else {
                lemma_insert_sorted_numbers(side, b, order, pre.next_number());
            }
        }
        r
    }

    /// The best resting buy order — numerically highest price, ties to the
    /// earliest sequence number — or `None` on an empty bid book.
    pub fn best_bid(&self) -> (r: Option<Order>)
        requires
            self.wf(),
        ensures
            (match r {
                Some(o) => self.bids().len() > 0 && o == self.bids()[0] && forall|i: int|
                    0 <= i < self.bids().len() ==> o.price >= (#[trigger] self.bids()[i]).price
                        && (o.price == self.bids()[i].price ==> o.order_number
                        <= self.bids()[i].order_number),
                None => self.bids().len() == 0,
            }),
    {
        if self.buy_orders.len() > 0 {
            Some(self.buy_orders[0])
        } else {
            None
        }
    }

    /// The best resting sell order — numerically lowest price, ties to the
    /// earliest sequence number — or `None` on an empty offer book.
    pub fn best_offer(&self) -> (r: Option<Order>)
        requires
            self.wf(),
        ensures
            (match r {
                Some(o) => self.asks().len() > 0 && o == self.asks()[0] && forall|i: int|
                    0 <= i < self.asks().len() ==> o.price <= (#[trigger] self.asks()[i]).price
                        && (o.price == self.asks()[i].price ==> o.order_number
                        <= self.asks()[i].order_number),
                None => self.asks().len() == 0,
            }),
    {
        if self.sell_orders.len() > 0 {
            Some(self.sell_orders[0])
        } else {
            None
        }
    }

    /// Depth query: walking the book opposite `direction` in priority
    /// order, the largest cumulative size obtainable such that the running
    /// volume-weighted average price of everything included stays within
    /// the limit price `limit_num / limit_den` (`limit_den > 0`). Yields
    /// the empty result when the opposite book is empty or nothing can be
    /// included; otherwise the weighted sum magnitude and the included
    /// size. The bounds on the opposite book's sums keep the exact
    /// integer accumulation within machine range.
    pub fn size_at_limit(&self, direction: OrderSide, limit_num: i64, limit_den: i64) -> (r:
        Option<LimitReport>)
        requires
            self.wf(),
            limit_den > 0,
            weight_bound(self.opposite_book(direction)) <= i64::MAX,
            total_size(self.opposite_book(direction)) <= i64::MAX,
        ensures
            r == depth_report(
                direction,
                self.opposite_book(direction),
                limit_num as int,
                limit_den as int,
            ),
    {
        match direction {
            OrderSide::Buy => scan_size_at_limit(
                direction,
                OrderSide::Sell,
                &self.sell_orders,
                limit_num,
                limit_den,
            ),
            OrderSide::Sell => scan_size_at_limit(
                direction,
                OrderSide::Buy,
                &self.buy_orders,
                limit_num,
                limit_den,
            ),
        }
    }

    /// Depth query: walking the book opposite `direction` in priority
    /// order, the volume-weighted price of acquiring `size` units — or as
    /// many as the book holds. Yields the empty result when `size` is
    /// zero; otherwise the weighted sum magnitude over the size actually
    /// found.
    pub fn limit_at_size(&self, direction: OrderSide, size: i64) -> (r: Option<LimitReport>)
        requires
            self.wf(),
            size >= 0,
            weight_bound(self.opposite_book(direction)) <= i64::MAX,
        ensures
            r == fill_report(self.opposite_book(direction), size as int),
    {
        match direction {
            OrderSide::Buy => scan_limit_at_size(OrderSide::Sell, &self.sell_orders, size),
            OrderSide::Sell => scan_limit_at_size(OrderSide::Buy, &self.buy_orders, size),
        }
    }

    /// Number of resting buy orders.
    pub fn len_bids(&self) -> (r: usize)
        ensures
            r == self.bids().len(),
    {
        self.buy_orders.len()
    }

    /// Number of resting sell orders.
    pub fn len_offers(&self) -> (r: usize)
        ensures
            r == self.asks().len(),
    {
        self.sell_orders.len()
    }
}

/// Removes the first (and, in a well-formed book, only) order bearing
/// sequence number `n`, reporting whether one was found.
fn remove_by_number(side: OrderSide, book: &mut Vec<Order>, n: i64) -> (r: bool)
    requires
        book_ok(side, old(book)@),
    ensures
        book_ok(side, final(book)@),
        ({
            let i = index_of_number(old(book)@, n);
            if i >= 0 {
                r && final(book)@ == old(book)@.remove(i)
            } else {
                !r && final(book)@ == old(book)@
            }
        }),
{
    let ghost s = book@;
    let mut k: usize = 0;
    while k < book.len()
        invariant
            book@ == s,
            old(book)@ == s,
            book_ok(side, s),
            0 <= k <= s.len(),
            forall|j: int| 0 <= j < k ==> (#[trigger] s[j]).order_number != n,
        decreases s.len() - k,
    {
        if book[k].order_number == n {
            proof {
                lemma_index_of_number_char(s, n);
                let i = index_of_number(s, n);
                assert(s[k as int].order_number == n);
                assert(i >= 0);
                if i < k {
                    assert(s[i].order_number != n);
                }
                assert(i == k as int);
                lemma_book_ok_remove(side, s, k as int);
            }
            book.remove(k);
            return true;
        }
        k += 1;
    }
    proof {
        lemma_index_of_number_char(s, n);
        let i = index_of_number(s, n);
        if i >= 0 {
            assert(s[i].order_number == n);
        }
    }
    false
}

/// Replaces the order bearing `order.order_number` with `order`, keeping
/// the book sorted; with no such order, `order` simply takes its priority
/// position.
fn replace_in(side: OrderSide, book: &mut Vec<Order>, order: Order) -> (r: Option<Order>)
    requires
        book_ok(side, old(book)@),
        order.order_side == side,
        order.size > 0,
    ensures
        book_ok(side, final(book)@),
        ({
            let b = old(book)@;
            let i = index_of_number(b, order.order_number);
            if i >= 0 {
                r == Some(b[i]) && final(book)@ == insert_sorted(side, b.remove(i), order)
            } else {
                r is None && final(book)@ == insert_sorted(side, b, order)
            }
        }),
{
    let ghost s = book@;
    let n = order.order_number;
    let mut k: usize = 0;
    while k < book.len()
        invariant
            book@ == s,
            old(book)@ == s,
            book_ok(side, s),
            order.order_side == side,
            order.size > 0,
            n == order.order_number,
            0 <= k <= s.len(),
            forall|j: int| 0 <= j < k ==> (#[trigger] s[j]).order_number != n,
        decreases s.len() - k,
    {
        if book[k].order_number == n {
            let prev = book[k];
            proof {
                lemma_index_of_number_char(s, n);
                let i = index_of_number(s, n);
                assert(s[k as int].order_number == n);
                assert(i >= 0);
                if i < k {
                    assert(s[i].order_number != n);
                }
                assert(i == k as int);
                lemma_book_ok_remove(side, s, k as int);
                assert forall|j: int|
                    0 <= j < s.remove(k as int).len() implies (#[trigger] s.remove(
                    k as int,
                )[j]).order_number != n by {
                    if j < k {
                        assert(s.remove(k as int)[j] == s[j]);
                    } else {
                        assert(s.remove(k as int)[j] == s[j + 1]);
                    }
                }
            }
            book.remove(k);
            rest_order(side, book, order);
            return Some(prev);
        }
        k += 1;
    }
    proof {
        lemma_index_of_number_char(s, n);
        let i = index_of_number(s, n);
        if i >= 0 {
            assert(s[i].order_number == n);
        }
    }
    rest_order(side, book, order);
    None
}

} // verus!
