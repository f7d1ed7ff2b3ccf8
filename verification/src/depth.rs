//! Depth-aggregation scans: the executable walks behind `size_at_limit`
//! and `limit_at_size`, with all arithmetic exact (wide intermediates, no
//! rounding beyond the specified floor).

use crate::model::book_ok;
use crate::model::could_add_spec;
use crate::model::depth_walk;
use crate::model::favorable_price;
use crate::model::fill_walk;
use crate::model::lemma_sums_nonneg;
use crate::model::lemma_sums_skip_step;
use crate::model::lemma_vwap_step;
use crate::model::mag;
use crate::model::total_size;
use crate::model::vwap_within;
use crate::model::weight_bound;
use crate::order::LimitReport;
use crate::order::Order;
use crate::order::OrderSide;
use vstd::prelude::*;

verus! {

/// Largest additional quantity of `o` that keeps the cumulative weighted
/// average within the limit `limit_num / limit_den`, given the accumulated
/// weighted sum and size so far.
fn could_add(
    direction: OrderSide,
    size_weighted_price: i64,
    found_size: i64,
    o: &Order,
    limit_num: i64,
    limit_den: i64,
) -> (r: i64)
    requires
        limit_den > 0,
        found_size >= 0,
        o.size >= 0,
        vwap_within(
            direction,
            size_weighted_price as int,
            found_size as int,
            limit_num as int,
            limit_den as int,
        ),
    ensures
        r == could_add_spec(
            direction,
            size_weighted_price as int,
            found_size as int,
            *o,
            limit_num as int,
            limit_den as int,
        ),
        0 <= r <= o.size,
{
    proof {
        lemma_vwap_step(
            direction,
            size_weighted_price as int,
            found_size as int,
            *o,
            limit_num as int,
            limit_den as int,
        );
        assert((o.price as int) * (limit_den as int) <= 0x3fffffffffffffff8000000000000000
            && -0x3fffffffffffffff8000000000000000 <= (o.price as int) * (limit_den as int))
            by (nonlinear_arith)
            requires
                -0x8000000000000000 <= o.price as int,
                (o.price as int) < 0x8000000000000000,
                0 < (limit_den as int),
                (limit_den as int) < 0x8000000000000000,
        ;
        assert((limit_num as int) * (found_size as int) <= 0x3fffffffffffffff8000000000000000
            && -0x3fffffffffffffff8000000000000000 <= (limit_num as int) * (found_size as int))
            by (nonlinear_arith)
            requires
                -0x8000000000000000 <= limit_num as int,
                (limit_num as int) < 0x8000000000000000,
                0 <= found_size as int,
                (found_size as int) < 0x8000000000000000,
        ;
        assert((size_weighted_price as int) * (limit_den as int)
            <= 0x3fffffffffffffff8000000000000000 && -0x3fffffffffffffff8000000000000000 <= (
        size_weighted_price as int) * (limit_den as int)) by (nonlinear_arith)
            requires
                -0x8000000000000000 <= size_weighted_price as int,
                (size_weighted_price as int) < 0x8000000000000000,
                0 < (limit_den as int),
                (limit_den as int) < 0x8000000000000000,
        ;
    }
    let swp = size_weighted_price as i128;
    let found = found_size as i128;
    let num = limit_num as i128;
    let den = limit_den as i128;
    let p = o.price as i128;
    let pd: i128 = p * den;
    let favorable = match direction {
        OrderSide::Buy => pd <= num,
        OrderSide::Sell => pd >= num,
    };
    if favorable {
        proof {
            assert(favorable_price(direction, o.price as int, limit_num as int, limit_den as int));
        }
        o.size
    } else {
        let qn: i128 = match direction {
            OrderSide::Buy => num * found - swp * den,
            OrderSide::Sell => swp * den - num * found,
        };
        let qd: i128 = match direction {
            OrderSide::Buy => pd - num,
            OrderSide::Sell => num - pd,
        };
        proof {
            assert(qn >= 0);
            assert(qd > 0);
        }
        let qu: u128 = qn as u128;
        let du: u128 = qd as u128;
        let q = qu / du;
        if q >= o.size as u128 {
            o.size
        } else {
            q as i64
        }
    }
}

/// The walk behind `size_at_limit`: accumulates, order by order, the
/// largest quantity each can contribute while the running weighted average
/// stays within the limit, and stops at the first order that contributes
/// nothing.
pub(crate) fn scan_size_at_limit(
    direction: OrderSide,
    side: OrderSide,
    opp: &Vec<Order>,
    limit_num: i64,
    limit_den: i64,
) -> (r: Option<LimitReport>)
    requires
        limit_den > 0,
        book_ok(side, opp@),
        weight_bound(opp@) <= i64::MAX,
        total_size(opp@) <= i64::MAX,
    ensures
        r == crate::model::depth_report(direction, opp@, limit_num as int, limit_den as int),
{
    let ghost v = opp@;
    proof {
        assert forall|j: int| 0 <= j < v.len() implies (#[trigger] v[j]).size >= 0 by {}
        lemma_sums_nonneg(v);
        assert(v.skip(0) =~= v);
    }
    if opp.len() == 0 {
        return None;
    }
    let mut found: i64 = 0;
    let mut swp: i64 = 0;
    let mut i: usize = 0;
    while i < opp.len()
        invariant
            opp@ == v,
            book_ok(side, v),
            limit_den > 0,
            weight_bound(v) <= i64::MAX,
            total_size(v) <= i64::MAX,
            0 <= i <= v.len(),
            0 <= found,
            weight_bound(v.skip(i as int)) >= 0,
            total_size(v.skip(i as int)) >= 0,
            found as int <= total_size(v) - total_size(v.skip(i as int)),
            mag(swp as int) <= weight_bound(v) - weight_bound(v.skip(i as int)),
            vwap_within(direction, swp as int, found as int, limit_num as int, limit_den as int),
            depth_walk(
                direction,
                v.skip(i as int),
                limit_num as int,
                limit_den as int,
                swp as int,
                found as int,
            ) == depth_walk(direction, v, limit_num as int, limit_den as int, 0, 0),
        ensures
            opp@ == v,
            0 <= found <= total_size(v),
            mag(swp as int) <= weight_bound(v),
            depth_walk(direction, v, limit_num as int, limit_den as int, 0, 0) == (
                swp as int,
                found as int,
            ),
        decreases v.len() - i,
    {
        let ghost i0 = i as int;
        let ghost swp0 = swp as int;
        let ghost found0 = found as int;
        let o = opp[i];
        proof {
            assert(v.skip(i0)[0] == v[i0]);
        }
        let q = could_add(direction, swp, found, &o, limit_num, limit_den);
        if q <= 0 {
            proof {
                assert(depth_walk(
                    direction,
                    v.skip(i0),
                    limit_num as int,
                    limit_den as int,
                    swp0,
                    found0,
                ) == (swp0, found0));
            }
            break ;
        }
        proof {
            lemma_vwap_step(direction, swp0, found0, o, limit_num as int, limit_den as int);
            lemma_sums_skip_step(v, i0);
            assert forall|j: int|
                0 <= j < v.skip(i0 + 1).len() implies (#[trigger] v.skip(i0 + 1)[j]).size >= 0 by {
                assert(v.skip(i0 + 1)[j] == v[i0 + 1 + j]);
            }
            lemma_sums_nonneg(v.skip(i0 + 1));
            let p = o.price as int;
            let m = mag(p);
            assert(q as int * p <= q as int * m && -(q as int * m) <= q as int * p)
                by (nonlinear_arith)
                requires
                    q as int >= 0,
                    -m <= p <= m,
            ;
            assert(q as int * m <= o.size as int * m) by (nonlinear_arith)
                requires
                    q as int <= o.size as int,
                    m >= 0,
            ;
            assert(mag(swp0 + q as int * p) <= weight_bound(v) - weight_bound(v.skip(i0 + 1)));
        }
        let weighted: i128 = (q as i128) * (o.price as i128);
        let new_swp: i128 = swp as i128 + weighted;
        swp = new_swp as i64;
        found = found + q;
        i = i + 1;
        proof {
            assert(v.skip(i0).drop_first() =~= v.skip(i0 + 1));
            assert(depth_walk(
                direction,
                v.skip(i0),
                limit_num as int,
                limit_den as int,
                swp0,
                found0,
            ) == depth_walk(
                direction,
                v.skip(i0 + 1),
                limit_num as int,
                limit_den as int,
                swp as int,
                found as int,
            ));
        }
    }
    if found == 0 {
        return None;
    }
    let swp_mag: i64 = if swp < 0 {
        -swp
    } else {
        swp
    };
    Some(LimitReport { size_weighted_price: swp_mag, size: found })
}

/// The walk behind `limit_at_size`: accumulates weighted price in priority
/// order until the requested size is accounted for or the book runs out;
/// the last order contributes only the remainder needed.
pub(crate) fn scan_limit_at_size(side: OrderSide, opp: &Vec<Order>, size: i64) -> (r: Option<
    LimitReport,
>)
    requires
        size >= 0,
        book_ok(side, opp@),
        weight_bound(opp@) <= i64::MAX,
    ensures
        r == crate::model::fill_report(opp@, size as int),
{
    let ghost v = opp@;
    proof {
        assert forall|j: int| 0 <= j < v.len() implies (#[trigger] v[j]).size >= 0 by {}
        lemma_sums_nonneg(v);
        assert(v.skip(0) =~= v);
    }
    let mut unfound: i64 = size;
    let mut swp: i64 = 0;
    let mut i: usize = 0;
    while i < opp.len()
        invariant_except_break
            mag(swp as int) <= weight_bound(v) - weight_bound(v.skip(i as int)),
            fill_walk(v.skip(i as int), unfound as int, swp as int) == fill_walk(
                v,
                size as int,
                0,
            ),
        invariant
            opp@ == v,
            book_ok(side, v),
            weight_bound(v) <= i64::MAX,
            0 <= i <= v.len(),
            0 <= unfound <= size,
            weight_bound(v.skip(i as int)) >= 0,
        ensures
            opp@ == v,
            0 <= unfound <= size,
            mag(swp as int) <= weight_bound(v),
            fill_walk(v, size as int, 0) == (swp as int, unfound as int),
        decreases v.len() - i,
    {
        let ghost i0 = i as int;
        let ghost swp0 = swp as int;
        let ghost unfound0 = unfound as int;
        let o = opp[i];
        proof {
            assert(v.skip(i0)[0] == v[i0]);
            lemma_sums_skip_step(v, i0);
            assert forall|j: int|
                0 <= j < v.skip(i0 + 1).len() implies (#[trigger] v.skip(i0 + 1)[j]).size >= 0 by {
                assert(v.skip(i0 + 1)[j] == v[i0 + 1 + j]);
            }
            lemma_sums_nonneg(v.skip(i0 + 1));
        }
        if unfound <= o.size {
            proof {
                let p = o.price as int;
                let m = mag(p);
                assert(unfound0 * p <= unfound0 * m && -(unfound0 * m) <= unfound0 * p)
                    by (nonlinear_arith)
                    requires
                        unfound0 >= 0,
                        -m <= p <= m,
                ;
                assert(unfound0 * m <= o.size as int * m) by (nonlinear_arith)
                    requires
                        unfound0 <= o.size as int,
                        m >= 0,
                ;
                assert(mag(swp0 + unfound0 * p) <= weight_bound(v) - weight_bound(v.skip(i0 + 1)));
            }
            let weighted: i128 = (unfound as i128) * (o.price as i128);
            swp = (swp as i128 + weighted) as i64;
            unfound = 0;
            proof {
                assert(fill_walk(v.skip(i0), unfound0, swp0) == (swp as int, 0int));
            }
            break ;
        } else {
            proof {
                let p = o.price as int;
                let m = mag(p);
                assert(o.size as int * p <= o.size as int * m && -(o.size as int * m) <= o.size
                    as int * p) by (nonlinear_arith)
                    requires
                        o.size as int >= 0,
                        -m <= p <= m,
                ;
                assert(mag(swp0 + o.size as int * p) <= weight_bound(v) - weight_bound(
                    v.skip(i0 + 1),
                ));
            }
            let weighted: i128 = (o.size as i128) * (o.price as i128);
            swp = (swp as i128 + weighted) as i64;
            unfound = unfound - o.size;
            i = i + 1;
            proof {
                assert(v.skip(i0).drop_first() =~= v.skip(i0 + 1));
                assert(fill_walk(v.skip(i0), unfound0, swp0) == fill_walk(
                    v.skip(i0 + 1),
                    unfound as int,
                    swp as int,
                ));
            }
        }
    }
    if size == 0 {
        return None;
    }
    let swp_mag: i64 = if swp < 0 {
        -swp
    } else {
        swp
    };
    Some(LimitReport { size_weighted_price: swp_mag, size: size - unfound })
}

} // verus!
