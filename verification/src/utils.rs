//! Helpers for passing data into plots.

use vstd::prelude::*;
use crate::chart::Point;
use crate::frac::{
    Frac, Rat, rat_add, rat_div, rat_le, rat_lt, rat_mul, rat_of_int, rat_floor, rat_sub,
    lemma_mul_bound, lemma_mul_pos, SMALL_BOUND,
};

verus! {

/// The bucket a value falls into: its offset from the lower bound divided by
/// the bucket width, rounded down.
pub open spec fn bucket_idx(min: Rat, max: Rat, bins: int, y: Rat) -> int {
    rat_floor(rat_div(rat_mul(rat_sub(y, min), rat_of_int(bins)), rat_sub(max, min)))
}

/// Whether a value is counted by bucket `k`: it lies within the bounds and
/// its bucket is `k`.
pub open spec fn in_bucket(min: Rat, max: Rat, bins: int, k: int, y: Rat) -> bool {
    rat_le(min, y) && rat_le(y, max) && bucket_idx(min, max, bins, y) == k
}

/// How many of the data points bucket `k` counts, by their y values.
pub open spec fn bucket_count(data: Seq<(Rat, Rat)>, min: Rat, max: Rat, bins: int, k: int) -> int
    decreases data.len(),
{
    if data.len() == 0 {
        0
    } else {
        bucket_count(data.drop_last(), min, max, bins, k) + (if in_bucket(
            min,
            max,
            bins,
            k,
            data.last().1,
        ) {
            1int
        } else {
            0int
        })
    }
}

/// The left edge of bucket `k`: the lower bound plus `k` bucket widths.
pub open spec fn bucket_x(min: Rat, max: Rat, bins: int, k: int) -> Rat {
    rat_add(min, rat_mul(rat_of_int(k), rat_div(rat_sub(max, min), rat_of_int(bins))))
}

/// A bucket counts at most every data point.
proof fn lemma_bucket_count_bound(data: Seq<(Rat, Rat)>, min: Rat, max: Rat, bins: int, k: int)
    ensures
        0 <= bucket_count(data, min, max, bins, k) <= data.len(),
    decreases data.len(),
{
    if data.len() > 0 {
        lemma_bucket_count_bound(data.drop_last(), min, max, bins, k);
    }
}

/// Transforms points into a frequency distribution, for use in histograms.
/// Values with y outside of [`min`, `max`] are ignored; everything else is
/// grouped by y into `bins` buckets of equal width (a y at the upper bound
/// falls past the last bucket and is dropped). Each returned point carries a
/// bucket's left edge and its count.
pub fn histogram(data: &Vec<(Frac, Frac)>, min: Frac, max: Frac, bins: usize) -> (r: Vec<Point>)
    requires
        min.small(),
        max.small(),
        rat_lt(min@, max@),
        bins <= SMALL_BOUND as usize,
        forall|i: int|
            0 <= i < data@.len() ==> (#[trigger] data@[i]).0.small() && data@[i].1.small(),
    ensures
        r@.len() == bins,
        forall|k: int|
            0 <= k < bins ==> (#[trigger] r@[k]).x@ == bucket_x(min@, max@, bins as int, k)
                && r@[k].y@ == rat_of_int(
                bucket_count(
                    data@.map_values(|p: (Frac, Frac)| (p.0@, p.1@)),
                    min@,
                    max@,
                    bins as int,
                    k,
                ),
            ),
{
    let ghost dv = data@.map_values(|p: (Frac, Frac)| (p.0@, p.1@));
    let mut counts: Vec<u64> = Vec::new();
    let mut k0: usize = 0;
    while k0 < bins
        invariant
            k0 <= bins,
            counts@.len() == k0,
            forall|k: int| 0 <= k < k0 ==> counts@[k] == 0u64,
        decreases bins - k0,
    {
        counts.push(0);
        k0 += 1;
    }
    let mn = min.numerator();
    let md = min.denominator();
    let xn = max.numerator();
    let xd = max.denominator();
    let mut j: usize = 0;
    while j < data.len()
        invariant
            j <= data.len(),
            dv == data@.map_values(|p: (Frac, Frac)| (p.0@, p.1@)),
            forall|i: int|
                0 <= i < data@.len() ==> (#[trigger] data@[i]).0.small() && data@[i].1.small(),
            min.small(),
            max.small(),
            rat_lt(min@, max@),
            bins <= SMALL_BOUND as usize,
            mn as int == min@.n,
            md as int == min@.d,
            xn as int == max@.n,
            xd as int == max@.d,
            counts@.len() == bins,
            forall|k: int|
                0 <= k < bins ==> (#[trigger] counts@[k]) as int == bucket_count(
                    dv.take(j as int),
                    min@,
                    max@,
                    bins as int,
                    k,
                ),
        decreases data.len() - j,
    {
        proof {
            assert(dv.take(j + 1).drop_last() =~= dv.take(j as int));
            assert(dv.take(j + 1).last() == dv[j as int]);
            assert((data@[j as int].0@, data@[j as int].1@) == dv[j as int]);
        }
        let y = data[j].1;
        if min.le(&y) && y.le(&max) {
            let yn = y.numerator();
            let yd = y.denominator();
            proof {
                let sb = SMALL_BOUND as int;
                lemma_mul_bound(yn as int, md as int, sb, sb);
                lemma_mul_bound(mn as int, yd as int, sb, sb);
                lemma_mul_bound(yd as int, md as int, sb, sb);
                lemma_mul_bound(xn as int, md as int, sb, sb);
                lemma_mul_bound(mn as int, xd as int, sb, sb);
                lemma_mul_bound(xd as int, md as int, sb, sb);
                lemma_mul_pos(yd as int, md as int);
                lemma_mul_pos(xd as int, md as int);
            }
            let sn = yn * md - mn * yd;
            let sd = yd * md;
            let wn = xn * md - mn * xd;
            let wd = xd * md;
            proof {
                lemma_mul_bound(sn as int, bins as i128 as int, 20_000_000_000, sb_const());
                lemma_mul_bound(
                    (sn * (bins as i128)) as int,
                    wd as int,
                    2_000_000_000_000_000,
                    10_000_000_000,
                );
                lemma_mul_bound(sd as int, wn as int, 10_000_000_000, 20_000_000_000);
                lemma_mul_pos(sd as int, wn as int);
            }
            let num = (sn * (bins as i128)) * wd;
            let den = sd * wn;
            let bval = Frac::new(num, den);
            proof {
                assert(bval@ == rat_div(
                    rat_mul(rat_sub(y@, min@), rat_of_int(bins as int)),
                    rat_sub(max@, min@),
                ));
                assert(rat_le(rat_of_int(0), bval@)) by (nonlinear_arith)
                    requires
                        bval@.n == (sn as int * (bins as int)) * wd as int,
                        bval@.d > 0,
                        sn as int >= 0,
                        bins >= 0,
                        wd as int > 0,
                ;
                assert(rat_le(bval@, rat_of_int(100_000_000_000_000_000_000_000_000))) by (nonlinear_arith)
                    requires
                        bval@.n <= 20_000_000_000_000_000_000_000_000,
                        bval@.d >= 1,
                ;
                crate::frac::lemma_round_bounds(bval@, 0, 100_000_000_000_000_000_000_000_000);
            }
            let idx = bval.floor_val();
            if idx < bins as i128 {
                let iu = idx as usize;
                let c = counts[iu];
                proof {
                    lemma_bucket_count_bound(dv.take(j as int), min@, max@, bins as int, iu as int);
                }
                counts.set(iu, c + 1);
            }
            proof {
                assert forall|k: int| 0 <= k < bins implies (#[trigger] counts@[k]) as int
                    == bucket_count(dv.take(j + 1), min@, max@, bins as int, k) by {
                    if in_bucket(min@, max@, bins as int, k, dv[j as int].1) {
                        assert(bucket_idx(min@, max@, bins as int, dv[j as int].1) == idx as int);
                    }
                }
            }
        } else {
            proof {
                assert forall|k: int| 0 <= k < bins implies (#[trigger] counts@[k]) as int
                    == bucket_count(dv.take(j + 1), min@, max@, bins as int, k) by {
                    assert(!in_bucket(min@, max@, bins as int, k, dv[j as int].1));
                }
            }
        }
        j += 1;
    }
    proof {
        assert(dv.take(data@.len() as int) =~= dv);
    }
    let mut r: Vec<Point> = Vec::new();
    let mut k: usize = 0;
    while k < bins
        invariant
            k <= bins,
            counts@.len() == bins,
            bins <= SMALL_BOUND as usize,
            min.small(),
            max.small(),
            rat_lt(min@, max@),
            mn as int == min@.n,
            md as int == min@.d,
            xn as int == max@.n,
            xd as int == max@.d,
            forall|i: int|
                0 <= i < bins ==> (#[trigger] counts@[i]) as int == bucket_count(
                    dv,
                    min@,
                    max@,
                    bins as int,
                    i,
                ),
            r@.len() == k,
            forall|i: int|
                0 <= i < k ==> (#[trigger] r@[i]).x@ == bucket_x(min@, max@, bins as int, i)
                    && r@[i].y@ == rat_of_int(bucket_count(dv, min@, max@, bins as int, i)),
        decreases bins - k,
    {
        proof {
            let sb = SMALL_BOUND as int;
            lemma_mul_bound(xn as int, md as int, sb, sb);
            lemma_mul_bound(mn as int, xd as int, sb, sb);
            lemma_mul_bound(xd as int, md as int, sb, sb);
            lemma_mul_pos(xd as int, md as int);
        }
        let wn = xn * md - mn * xd;
        let wd = xd * md;
        proof {
            lemma_mul_bound(wd as int, bins as i128 as int, 10_000_000_000, sb_const());
            lemma_mul_pos(wd as int, bins as i128 as int);
            lemma_mul_bound(k as i128 as int, wn as int, sb_const(), 20_000_000_000);
            lemma_mul_bound(
                mn as int,
                (wd * (bins as i128)) as int,
                sb_const(),
                1_000_000_000_000_000,
            );
            lemma_mul_bound((k as i128 * wn) as int, md as int, 2_000_000_000_000_000, sb_const());
            lemma_mul_bound(
                md as int,
                (wd * (bins as i128)) as int,
                sb_const(),
                1_000_000_000_000_000,
            );
            lemma_mul_pos(md as int, (wd * (bins as i128)) as int);
        }
        let num = mn * (wd * (bins as i128)) + ((k as i128) * wn) * md;
        let den = md * (wd * (bins as i128));
        let x = Frac::new(num, den);
        let yv = Frac::from_int(counts[k] as i128);
        proof {
            assert(x@ == bucket_x(min@, max@, bins as int, k as int));
        }
        r.push(Point { x, y: yv });
        k += 1;
    }
    r
}

/// The small-bound constant as a specification integer.
pub open spec fn sb_const() -> int {
    SMALL_BOUND as int
}

/// Wraps plain coordinate pairs as chart points.
pub fn pairs_into_points(data: &Vec<(Frac, Frac)>) -> (r: Vec<Point>)
    ensures
        r@.len() == data@.len(),
        forall|i: int|
            0 <= i < data@.len() ==> (#[trigger] r@[i]).x == data@[i].0 && r@[i].y == data@[i].1,
{
    let mut r: Vec<Point> = Vec::new();
    let mut i: usize = 0;
    while i < data.len()
        invariant
            i <= data.len(),
            r@.len() == i,
            forall|k: int|
                0 <= k < i ==> (#[trigger] r@[k]).x == data@[k].0 && r@[k].y == data@[k].1,
        decreases data.len() - i,
    {
        let p = data[i];
        r.push(Point { x: p.0, y: p.1 });
        i += 1;
    }
    r
}

} // verus!
