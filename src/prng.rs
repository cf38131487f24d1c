//! Unbiased sampling of a bounded integer from uniform random draws.

use vstd::prelude::*;

verus! {

/// One round of unbiased sampling of `0..=max` from a uniform 32-bit draw:
/// the draw's bucket when the draw lies below the largest multiple of
/// `max + 1` that fits, else a rejection that calls for a fresh draw.
pub open spec fn spec_accept_draw(x: u32, max: u32) -> Option<u32> {
    let top = max + 1;
    let buckets = u32::MAX as int / top;
    if x < buckets * top {
        Some((x as int / buckets) as u32)
    } else {
        None
    }
}

/// One round of unbiased sampling of `0..=max` from a uniform 64-bit draw.
pub open spec fn spec_accept_draw_u64(x: u64, max: u64) -> Option<u64> {
    let top = max + 1;
    let buckets = u64::MAX as int / top;
    if x < buckets * top {
        Some((x as int / buckets) as u64)
    } else {
        None
    }
}

/// Accepts or rejects a uniform 32-bit draw when sampling `0..=max`; an
/// accepted draw gives a value of at most `max`.
pub fn accept_draw(x: u32, max: u32) -> (r: Option<u32>)
    ensures
        r == spec_accept_draw(x, max),
        r is Some ==> r->0 <= max,
{
    let top: u64 = max as u64 + 1;
    let buckets: u64 = u32::MAX as u64 / top;
    proof {
        assert(buckets * top <= u32::MAX) by (nonlinear_arith)
            requires
                buckets == u32::MAX as int / (top as int),
                top > 0,
        ;
    }
    let limit: u64 = buckets * top;
    if (x as u64) < limit {
        proof {
            assert(buckets > 0) by (nonlinear_arith)
                requires
                    x < buckets * top,
                    top > 0,
            ;
            assert((x as int) / (buckets as int) < top) by (nonlinear_arith)
                requires
                    x < buckets * top,
                    buckets > 0,
            ;
        }
        Some(((x as u64) / buckets) as u32)
    } else {
        None
    }
}

/// Accepts or rejects a uniform 64-bit draw when sampling `0..=max`; an
/// accepted draw gives a value of at most `max`.
pub fn accept_draw_u64(x: u64, max: u64) -> (r: Option<u64>)
    ensures
        r == spec_accept_draw_u64(x, max),
        r is Some ==> r->0 <= max,
{
    let top: u128 = max as u128 + 1;
    let buckets: u128 = u64::MAX as u128 / top;
    proof {
        assert(buckets * top <= u64::MAX) by (nonlinear_arith)
            requires
                buckets == u64::MAX as int / (top as int),
                top > 0,
        ;
    }
    let limit: u128 = buckets * top;
    if (x as u128) < limit {
        proof {
            assert(buckets > 0) by (nonlinear_arith)
                requires
                    x < buckets * top,
                    top > 0,
            ;
            assert((x as int) / (buckets as int) < top) by (nonlinear_arith)
                requires
                    x < buckets * top,
                    buckets > 0,
            ;
        }
        Some(((x as u128) / buckets) as u64)
    } else {
        None
    }
}

} // verus!
