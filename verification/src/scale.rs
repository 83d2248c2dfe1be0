//! Transformations between domain and range.

use vstd::prelude::*;
use crate::frac::{
    Frac, Rat, rat_add, rat_div, rat_eq, rat_le, rat_lt, rat_mul, rat_small, rat_sub,
    lemma_mul_bound, lemma_mul_pos, SMALL_BOUND, ROUND_BOUND,
};

verus! {

/// Holds the mapping between the domain and the range of the chart: two
/// intervals of exact rationals, each with a strictly smaller lower endpoint.
#[derive(Clone, Copy, Debug)]
pub struct Scale {
    dlo: Frac,
    dhi: Frac,
    rlo: Frac,
    rhi: Frac,
}

/// A scale at the specification level.
pub struct ScaleV {
    pub dlo: Rat,
    pub dhi: Rat,
    pub rlo: Rat,
    pub rhi: Rat,
}

/// A valid scale: small endpoints, and both intervals of positive width.
pub open spec fn scale_wf(s: ScaleV) -> bool {
    &&& rat_small(s.dlo)
    &&& rat_small(s.dhi)
    &&& rat_small(s.rlo)
    &&& rat_small(s.rhi)
    &&& rat_lt(s.dlo, s.dhi)
    &&& rat_lt(s.rlo, s.rhi)
}

/// The scale with domain and range swapped: the mapping in the other
/// direction.
pub open spec fn scale_inverse(s: ScaleV) -> ScaleV {
    ScaleV { dlo: s.rlo, dhi: s.rhi, rlo: s.dlo, rhi: s.dhi }
}

/// The unclamped image of `x`:
/// `rlo + ((x - dlo) * (rhi - rlo)) / (dhi - dlo)`.
pub open spec fn raw_linear(s: ScaleV, x: Rat) -> Rat {
    rat_add(
        s.rlo,
        rat_div(rat_mul(rat_sub(x, s.dlo), rat_sub(s.rhi, s.rlo)), rat_sub(s.dhi, s.dlo)),
    )
}

/// The image of `x` under the scale, clamped into the range interval. A value
/// at or below the lower domain endpoint maps to the lower range endpoint, one
/// at or beyond the upper endpoint to the upper.
pub open spec fn linear_map(s: ScaleV, x: Rat) -> Rat {
    if rat_le(x, s.dlo) {
        s.rlo
    } else if rat_le(s.dhi, x) {
        s.rhi
    } else {
        raw_linear(s, x)
    }
}

/// The representation bound every result of the scale arithmetic satisfies:
/// far within what rounding accepts.
pub open spec fn scale_result_bounded(r: Rat) -> bool {
    &&& -(ROUND_BOUND as int) <= r.n <= ROUND_BOUND as int
    &&& 0 < r.d <= ROUND_BOUND as int
}

impl View for Scale {
    type V = ScaleV;

    closed spec fn view(&self) -> ScaleV {
        ScaleV { dlo: self.dlo@, dhi: self.dhi@, rlo: self.rlo@, rhi: self.rhi@ }
    }
}

impl Scale {
    pub open spec fn wf(self) -> bool {
        scale_wf(self@)
    }

    /// A scale must be built with non-degenerate intervals: both must have a
    /// strictly positive width.
    pub fn new(dlo: Frac, dhi: Frac, rlo: Frac, rhi: Frac) -> (s: Scale)
        requires
            dlo.small(),
            dhi.small(),
            rlo.small(),
            rhi.small(),
            rat_lt(dlo@, dhi@),
            rat_lt(rlo@, rhi@),
        ensures
            s@ == (ScaleV { dlo: dlo@, dhi: dhi@, rlo: rlo@, rhi: rhi@ }),
            s.wf(),
    {
        Scale { dlo, dhi, rlo, rhi }
    }

    /// Translates a value from domain to range scale, clamped into the range.
    pub fn linear(&self, x: &Frac) -> (r: Frac)
        requires
            self.wf(),
            x.small(),
        ensures
            r@ == linear_map(self@, x@),
            scale_result_bounded(r@),
            rat_le(self@.rlo, r@),
            rat_le(r@, self@.rhi),
    {
        proof {
            lemma_linear_in_range(self@, x@);
        }
        if x.le(&self.dlo) {
            self.rlo
        } else if self.dhi.le(x) {
            self.rhi
        } else {
            let xn = x.numerator();
            let xd = x.denominator();
            let an = self.dlo.numerator();
            let ad = self.dlo.denominator();
            let bn = self.dhi.numerator();
            let bd = self.dhi.denominator();
            let cn = self.rlo.numerator();
            let cd = self.rlo.denominator();
            let en = self.rhi.numerator();
            let ed = self.rhi.denominator();
            proof {
                let sb = SMALL_BOUND as int;
                lemma_mul_bound(xn as int, ad as int, sb, sb);
                lemma_mul_bound(an as int, xd as int, sb, sb);
                lemma_mul_bound(xd as int, ad as int, sb, sb);
                lemma_mul_bound(en as int, cd as int, sb, sb);
                lemma_mul_bound(cn as int, ed as int, sb, sb);
                lemma_mul_bound(ed as int, cd as int, sb, sb);
                lemma_mul_bound(bn as int, ad as int, sb, sb);
                lemma_mul_bound(an as int, bd as int, sb, sb);
                lemma_mul_bound(bd as int, ad as int, sb, sb);
            }
            let p = xn * ad - an * xd;
            let q = xd * ad;
            let u = en * cd - cn * ed;
            let v = ed * cd;
            let w = bn * ad - an * bd;
            let z = bd * ad;
            proof {
                lemma_mul_pos(xd as int, ad as int);
                lemma_mul_pos(ed as int, cd as int);
                lemma_mul_pos(bd as int, ad as int);
                lemma_mul_bound(q as int, v as int, 20_000_000_000, 20_000_000_000);
                lemma_mul_pos(q as int, v as int);
            }
            let qv = q * v;
            proof {
                lemma_mul_bound(
                    qv as int,
                    w as int,
                    400_000_000_000_000_000_000,
                    20_000_000_000,
                );
                lemma_mul_pos(qv as int, w as int);
            }
            let qvw = qv * w;
            proof {
                lemma_mul_bound(p as int, u as int, 20_000_000_000, 20_000_000_000);
            }
            let pu = p * u;
            proof {
                lemma_mul_bound(
                    pu as int,
                    z as int,
                    400_000_000_000_000_000_000,
                    20_000_000_000,
                );
            }
            let puz = pu * z;
            proof {
                lemma_mul_bound(
                    cn as int,
                    qvw as int,
                    SMALL_BOUND as int,
                    8_000_000_000_000_000_000_000_000_000_000,
                );
                lemma_mul_bound(
                    puz as int,
                    cd as int,
                    8_000_000_000_000_000_000_000_000_000_000,
                    SMALL_BOUND as int,
                );
                lemma_mul_bound(
                    cd as int,
                    qvw as int,
                    SMALL_BOUND as int,
                    8_000_000_000_000_000_000_000_000_000_000,
                );
                lemma_mul_pos(cd as int, qvw as int);
            }
            let num = cn * qvw + puz * cd;
            let den = cd * qvw;
            Frac::new(num, den)
        }
    }

    /// Translates a value from domain to range scale and hands it back only
    /// when its exact representation fits the small bounds again, so that the
    /// result can re-enter the pipeline, for instance through
    /// [`Scale::inv_linear`].
    pub fn linear_small(&self, x: &Frac) -> (r: Option<Frac>)
        requires
            self.wf(),
            x.small(),
        ensures
            r is Some <==> rat_small(linear_map(self@, x@)),
            r is Some ==> r.unwrap().small() && r.unwrap()@ == linear_map(self@, x@),
    {
        let f = self.linear(x);
        let n = f.numerator();
        let d = f.denominator();
        if -SMALL_BOUND <= n && n <= SMALL_BOUND && d <= SMALL_BOUND {
            Some(f)
        } else {
            None
        }
    }

    /// Translates a value from range to domain scale, clamped into the
    /// domain: the mapping of [`Scale::linear`] taken in the other direction.
    pub fn inv_linear(&self, v: &Frac) -> (r: Frac)
        requires
            self.wf(),
            v.small(),
        ensures
            r@ == linear_map(scale_inverse(self@), v@),
            scale_result_bounded(r@),
            rat_le(self@.dlo, r@),
            rat_le(r@, self@.dhi),
    {
        let flipped = Scale { dlo: self.rlo, dhi: self.rhi, rlo: self.dlo, rhi: self.dhi };
        flipped.linear(v)
    }
}

/// The mapping in the other direction, handed back only when its exact
/// representation fits the small bounds again.
impl Scale {
    pub fn inv_linear_small(&self, v: &Frac) -> (r: Option<Frac>)
        requires
            self.wf(),
            v.small(),
        ensures
            r is Some <==> rat_small(linear_map(scale_inverse(self@), v@)),
            r is Some ==> r.unwrap().small() && r.unwrap()@ == linear_map(scale_inverse(self@), v@),
    {
        let f = self.inv_linear(v);
        let n = f.numerator();
        let d = f.denominator();
        if -SMALL_BOUND <= n && n <= SMALL_BOUND && d <= SMALL_BOUND {
            Some(f)
        } else {
            None
        }
    }
}

/// The image of a value lies at or above the lower range endpoint: adding a
/// positive quotient to the endpoint moves up.
proof fn lemma_image_above(cn: int, cd: int, puz: int, qvw: int, rn: int, rd: int)
    requires
        rn == cn * qvw + puz * cd,
        rd == cd * qvw,
        puz > 0,
        cd > 0,
        qvw > 0,
    ensures
        cn * rd < rn * cd,
{
    assert(cn * rd < rn * cd) by (nonlinear_arith)
        requires
            rn == cn * qvw + puz * cd,
            rd == cd * qvw,
            puz > 0,
            cd > 0,
            qvw > 0,
    ;
}

/// A domain value below the upper endpoint keeps its scaled offset below the
/// scaled width of the domain.
proof fn lemma_offset_below(
    xn: int,
    xd: int,
    an: int,
    ad: int,
    bn: int,
    bd: int,
    p: int,
    q: int,
    w: int,
    z: int,
)
    requires
        p == xn * ad - an * xd,
        q == xd * ad,
        w == bn * ad - an * bd,
        z == bd * ad,
        xn * bd < bn * xd,
        ad > 0,
        xd > 0,
        bd > 0,
    ensures
        p * z < q * w,
{
    assert(p * z < q * w) by (nonlinear_arith)
        requires
            p == xn * ad - an * xd,
            q == xd * ad,
            w == bn * ad - an * bd,
            z == bd * ad,
            xn * bd < bn * xd,
            ad > 0,
            xd > 0,
            bd > 0,
    ;
}

/// The image of a value strictly below the upper domain endpoint stays
/// strictly below the upper range endpoint.
proof fn lemma_image_below(
    cn: int,
    cd: int,
    en: int,
    ed: int,
    p: int,
    q: int,
    u: int,
    v: int,
    w: int,
    z: int,
    rn: int,
    rd: int,
)
    requires
        rn == cn * ((q * v) * w) + ((p * u) * z) * cd,
        rd == cd * ((q * v) * w),
        u == en * cd - cn * ed,
        v == ed * cd,
        p * z < q * w,
        p > 0,
        u > 0,
        q > 0,
        v > 0,
        w > 0,
        z > 0,
        cd > 0,
        ed > 0,
    ensures
        rn * ed < en * rd,
{
    assert(rn * ed < en * rd) by (nonlinear_arith)
        requires
            rn == cn * ((q * v) * w) + ((p * u) * z) * cd,
            rd == cd * ((q * v) * w),
            u == en * cd - cn * ed,
            v == ed * cd,
            p * z < q * w,
            p > 0,
            u > 0,
            q > 0,
            v > 0,
            w > 0,
            z > 0,
            cd > 0,
            ed > 0,
    ;
}

/// The clamped image always lies in the range interval, and an input strictly
/// inside the domain maps strictly inside the range.
pub proof fn lemma_linear_in_range(s: ScaleV, x: Rat)
    requires
        scale_wf(s),
        x.d > 0,
    ensures
        rat_le(s.rlo, linear_map(s, x)),
        rat_le(linear_map(s, x), s.rhi),
        rat_small(x) ==> scale_result_bounded(linear_map(s, x)),
        rat_lt(s.dlo, x) && rat_lt(x, s.dhi) ==> rat_lt(s.rlo, linear_map(s, x)) && rat_lt(
            linear_map(s, x),
            s.rhi,
        ),
{
    if rat_le(x, s.dlo) {
    } else if rat_le(s.dhi, x) {
    } else {
        let r = raw_linear(s, x);
        let small = rat_small(x);
        let p = x.n * s.dlo.d - s.dlo.n * x.d;
        let q = x.d * s.dlo.d;
        let u = s.rhi.n * s.rlo.d - s.rlo.n * s.rhi.d;
        let v = s.rhi.d * s.rlo.d;
        let w = s.dhi.n * s.dlo.d - s.dlo.n * s.dhi.d;
        let z = s.dhi.d * s.dlo.d;
        assert(r.n == s.rlo.n * ((q * v) * w) + ((p * u) * z) * s.rlo.d);
        assert(r.d == s.rlo.d * ((q * v) * w));
        lemma_mul_pos(x.d, s.dlo.d);
        lemma_mul_pos(s.rhi.d, s.rlo.d);
        lemma_mul_pos(s.dhi.d, s.dlo.d);
        lemma_mul_pos(q, v);
        lemma_mul_pos(q * v, w);
        lemma_mul_pos(s.rlo.d, (q * v) * w);
        lemma_mul_pos(p, u);
        lemma_mul_pos(p * u, z);
        lemma_image_above(s.rlo.n, s.rlo.d, (p * u) * z, (q * v) * w, r.n, r.d);
        lemma_offset_below(x.n, x.d, s.dlo.n, s.dlo.d, s.dhi.n, s.dhi.d, p, q, w, z);
        lemma_image_below(
            s.rlo.n,
            s.rlo.d,
            s.rhi.n,
            s.rhi.d,
            p,
            q,
            u,
            v,
            w,
            z,
            r.n,
            r.d,
        );
        if rat_small(x) {
            let sb = SMALL_BOUND as int;
            lemma_mul_bound(x.n, s.dlo.d, sb, sb);
            lemma_mul_bound(s.dlo.n, x.d, sb, sb);
            lemma_mul_bound(x.d, s.dlo.d, sb, sb);
            lemma_mul_bound(s.rhi.n, s.rlo.d, sb, sb);
            lemma_mul_bound(s.rlo.n, s.rhi.d, sb, sb);
            lemma_mul_bound(s.rhi.d, s.rlo.d, sb, sb);
            lemma_mul_bound(s.dhi.n, s.dlo.d, sb, sb);
            lemma_mul_bound(s.dlo.n, s.dhi.d, sb, sb);
            lemma_mul_bound(s.dhi.d, s.dlo.d, sb, sb);
            lemma_mul_bound(q, v, 20_000_000_000, 20_000_000_000);
            lemma_mul_bound(q * v, w, 400_000_000_000_000_000_000, 20_000_000_000);
            lemma_mul_bound(p, u, 20_000_000_000, 20_000_000_000);
            lemma_mul_bound(p * u, z, 400_000_000_000_000_000_000, 20_000_000_000);
            lemma_mul_bound(s.rlo.n, (q * v) * w, sb, 8_000_000_000_000_000_000_000_000_000_000);
            lemma_mul_bound((p * u) * z, s.rlo.d, 8_000_000_000_000_000_000_000_000_000_000, sb);
            lemma_mul_bound(s.rlo.d, (q * v) * w, sb, 8_000_000_000_000_000_000_000_000_000_000);
        }
    }
}

/// The core cancellation of the round trip: mapping forward and back with the
/// same intervals returns the original value.
#[verifier::rlimit(100)]
proof fn lemma_round_trip_core(
    xn: int,
    xd: int,
    an: int,
    ad: int,
    p: int,
    q: int,
    u: int,
    v: int,
    w: int,
    z: int,
    rd2: int,
    pp: int,
    qq: int,
    tn: int,
    td: int,
)
    requires
        tn == an * ((qq * z) * u) + ((pp * w) * v) * ad,
        td == ad * ((qq * z) * u),
        pp == ((p * u) * z) * (rd2 * rd2),
        qq == (rd2 * rd2) * ((q * v) * w),
        p == xn * ad - an * xd,
        q == xd * ad,
    ensures
        tn * xd == xn * td,
{
    let kk = (rd2 * rd2) * (((u * v) * w) * z);
    let aa = (qq * z) * u;
    let bb = (pp * w) * v;
    assert(aa == kk * q) by (nonlinear_arith)
        requires
            aa == (qq * z) * u,
            qq == (rd2 * rd2) * ((q * v) * w),
            kk == (rd2 * rd2) * (((u * v) * w) * z),
    ;
    assert(bb == kk * p) by (nonlinear_arith)
        requires
            bb == (pp * w) * v,
            pp == ((p * u) * z) * (rd2 * rd2),
            kk == (rd2 * rd2) * (((u * v) * w) * z),
    ;
    assert(tn == kk * (an * q + p * ad)) by (nonlinear_arith)
        requires
            tn == an * (kk * q) + (kk * p) * ad,
    ;
    assert(an * q + p * ad == xn * (ad * ad)) by (nonlinear_arith)
        requires
            p == xn * ad - an * xd,
            q == xd * ad,
    ;
    assert((kk * (xn * (ad * ad))) * xd == xn * (ad * (kk * (xd * ad)))) by (nonlinear_arith);
    assert(td == ad * (kk * (xd * ad)));
}

/// The two directions of a scale are exact inverses on values strictly inside
/// the intervals: mapping a domain value into the range and back returns the
/// same rational value. Together with the clamping clauses of `linear_map`
/// this is the full round-trip law of `linear` and `inv_linear`.
pub proof fn lemma_scale_round_trip(s: ScaleV, x: Rat)
    requires
        scale_wf(s),
        x.d > 0,
        rat_lt(s.dlo, x),
        rat_lt(x, s.dhi),
    ensures
        rat_eq(linear_map(scale_inverse(s), linear_map(s, x)), x),
{
    lemma_linear_in_range(s, x);
    let y = linear_map(s, x);
    assert(y == raw_linear(s, x));
    let t = raw_linear(scale_inverse(s), y);
    assert(linear_map(scale_inverse(s), y) == t);
    let p = x.n * s.dlo.d - s.dlo.n * x.d;
    let q = x.d * s.dlo.d;
    let u = s.rhi.n * s.rlo.d - s.rlo.n * s.rhi.d;
    let v = s.rhi.d * s.rlo.d;
    let w = s.dhi.n * s.dlo.d - s.dlo.n * s.dhi.d;
    let z = s.dhi.d * s.dlo.d;
    let pp = y.n * s.rlo.d - s.rlo.n * y.d;
    let qq = y.d * s.rlo.d;
    assert(y.n == s.rlo.n * ((q * v) * w) + ((p * u) * z) * s.rlo.d);
    assert(y.d == s.rlo.d * ((q * v) * w));
    assert(t.n == s.dlo.n * ((qq * z) * u) + ((pp * w) * v) * s.dlo.d);
    assert(t.d == s.dlo.d * ((qq * z) * u));
    assert(pp == ((p * u) * z) * (s.rlo.d * s.rlo.d)) by (nonlinear_arith)
        requires
            pp == y.n * s.rlo.d - s.rlo.n * y.d,
            y.n == s.rlo.n * ((q * v) * w) + ((p * u) * z) * s.rlo.d,
            y.d == s.rlo.d * ((q * v) * w),
    ;
    assert(qq == (s.rlo.d * s.rlo.d) * ((q * v) * w)) by (nonlinear_arith)
        requires
            qq == y.d * s.rlo.d,
            y.d == s.rlo.d * ((q * v) * w),
    ;
    lemma_round_trip_core(
        x.n,
        x.d,
        s.dlo.n,
        s.dlo.d,
        p,
        q,
        u,
        v,
        w,
        z,
        s.rlo.d,
        pp,
        qq,
        t.n,
        t.d,
    );
}

} // verus!
