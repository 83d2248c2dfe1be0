//! The library's laws: properties of registration and rasterization that
//! relate several functions, stated over the same specification functions the
//! executable contracts use.

use vstd::prelude::*;
use crate::canvas::{seg_ok, segment_dot_seq, seg_writes};
use crate::chart::{
    bounds_cover, contrib_min, cont_dots, cont_writes, in_domain, kept_point_ys, mapped_pts,
    next_ymin, next_ymax, render_writes, scatter_writes, shape_writes, shapes_writes,
    step_pair_writes, view_wf, ChartV, FrameV, ShapeV,
};
use crate::color::Color;
use crate::frac::{rat_le, Rat};
use crate::paint::{
    apply_writes, has_dot, lemma_apply_has_dot, lemma_apply_idempotent, writes_dot, CellGrid,
    DotWrite,
};

verus! {

/// Registering a shape never shrinks the vertical range: the new lower bound
/// lies at or below the old one, the new upper bound at or above it; and in a
/// well-formed chart both bounds cover every kept y value of every registered
/// shape.
pub proof fn lemma_registration_monotone(v: ChartV, sh: ShapeV)
    requires
        view_wf(v),
        v.ymin is Some,
    ensures
        rat_le(next_ymin(v.ymin, v.xmin, v.xmax, sh), v.ymin.unwrap()),
        rat_le(v.ymax.unwrap(), next_ymax(v.ymax, v.xmin, v.xmax, sh)),
        bounds_cover(v),
{
    let m = v.ymin.unwrap();
    let c = contrib_min(v.xmin, v.xmax, sh);
    if rat_le(m, c) {
    } else {
    }
}

/// A data point whose x lies outside the domain influences nothing: it adds
/// no kept y value (so it cannot move the range bounds) and no canvas dot of
/// its own (the mapped dot list is unchanged).
pub proof fn lemma_out_of_domain_point_inert(f: FrameV, pts: Seq<(Rat, Rat)>, p: (Rat, Rat))
    requires
        !in_domain(f, p.0),
    ensures
        mapped_pts(f, pts.push(p)) == mapped_pts(f, pts),
        kept_point_ys(f.xmin, f.xmax, pts.push(p)) == kept_point_ys(f.xmin, f.xmax, pts),
{
    assert(pts.push(p).drop_last() =~= pts);
    assert(pts.push(p).last() == p);
}

/// Which dots a scatter plot writes: exactly the mapped dots of its points.
pub proof fn lemma_scatter_dots(ds: Seq<(int, int)>, color: Color, x: int, y: int)
    ensures
        writes_dot(scatter_writes(ds, color), x, y) <==> ds.contains((x, y)),
    decreases ds.len(),
{
    if ds.len() == 0 {
    } else {
        lemma_scatter_dots(ds.drop_last(), color, x, y);
        let w = DotWrite { x: ds.last().0, y: ds.last().1, colored: true, color };
        lemma_writes_dot_concat(scatter_writes(ds.drop_last(), color), seq![w], x, y);
        assert(scatter_writes(ds, color) == scatter_writes(ds.drop_last(), color).push(w));
        assert(scatter_writes(ds.drop_last(), color).push(w) =~= scatter_writes(
            ds.drop_last(),
            color,
        ) + seq![w]);
        assert(writes_dot(seq![w], x, y) <==> (w.x == x && w.y == y)) by {
            assert(seq![w].drop_first().len() == 0);
            assert(!writes_dot(seq![w].drop_first(), x, y));
            assert(seq![w][0] == w);
        }
        if ds.contains((x, y)) {
            let i = choose|i: int| 0 <= i < ds.len() && ds[i] == ((x, y));
            if i < ds.len() - 1 {
                assert(ds.drop_last()[i] == ds[i]);
                assert(ds.drop_last().contains((x, y)));
            }
        }
        if ds.drop_last().contains((x, y)) {
            let i = choose|i: int| 0 <= i < ds.drop_last().len() && ds.drop_last()[i] == ((x, y));
            assert(ds[i] == ds.drop_last()[i]);
            assert(ds.contains((x, y)));
        }
        if ds.last() == ((x, y)) {
            assert(ds.contains((x, y)));
        }
    }
}

/// A dot written by a concatenation was written by one of the halves.
pub proof fn lemma_writes_dot_concat(a: Seq<DotWrite>, b: Seq<DotWrite>, x: int, y: int)
    ensures
        writes_dot(a + b, x, y) <==> (writes_dot(a, x, y) || writes_dot(b, x, y)),
    decreases a.len(),
{
    if a.len() == 0 {
        assert(a + b =~= b);
    } else {
        assert((a + b).drop_first() =~= a.drop_first() + b);
        lemma_writes_dot_concat(a.drop_first(), b, x, y);
    }
}

/// A dot a segment writes is a dot of the segment's walked sequence.
pub proof fn lemma_seg_writes_dot(x1: int, y1: int, x2: int, y2: int, color: Color, x: int, y: int)
    ensures
        writes_dot(seg_writes(x1, y1, x2, y2, color), x, y) <==> segment_dot_seq(
            x1,
            y1,
            x2,
            y2,
        ).contains((x, y)),
{
    lemma_seg_writes_dot_rec(segment_dot_seq(x1, y1, x2, y2), color, x, y);
}

proof fn lemma_seg_writes_dot_rec(ds: Seq<(int, int)>, color: Color, x: int, y: int)
    ensures
        writes_dot(
            ds.map_values(|d: (int, int)| DotWrite { x: d.0, y: d.1, colored: true, color }),
            x,
            y,
        ) <==> ds.contains((x, y)),
    decreases ds.len(),
{
    let ws = ds.map_values(|d: (int, int)| DotWrite { x: d.0, y: d.1, colored: true, color });
    if ds.len() == 0 {
    } else {
        lemma_seg_writes_dot_rec(ds.drop_first(), color, x, y);
        assert(ws.drop_first() =~= ds.drop_first().map_values(
            |d: (int, int)| DotWrite { x: d.0, y: d.1, colored: true, color },
        ));
        if ds.contains((x, y)) {
            let i = choose|i: int| 0 <= i < ds.len() && ds[i] == ((x, y));
            if i > 0 {
                assert(ds.drop_first()[i - 1] == ds[i]);
                assert(ds.drop_first().contains((x, y)));
            }
        }
        if ds.drop_first().contains((x, y)) {
            let i = choose|i: int|
                0 <= i < ds.drop_first().len() && ds.drop_first()[i] == ((x, y));
            assert(ds[i + 1] == ds.drop_first()[i]);
            assert(ds.contains((x, y)));
        }
        if ds[0] == ((x, y)) {
            assert(ds.contains((x, y)));
        }
    }
}

/// The step outline between two mapped dots `a` and `b`, provided the segment
/// walker meets its contract (both endpoints drawn, every dot within their
/// bounding box): the four corner dots are all written, and every written dot
/// lies on the flat run at `b`'s level or on the rise at `a`'s column — in
/// particular nothing is drawn strictly between the two columns off `b`'s
/// level, so no direct diagonal joins the two dots.
pub proof fn lemma_step_outline(a: (int, int), b: (int, int), color: Color, x: int, y: int)
    requires
        seg_ok(a.0, b.1, b.0, b.1),
        seg_ok(a.0, a.1, a.0, b.1),
    ensures
        writes_dot(step_pair_writes(a, b, color), a.0, a.1),
        writes_dot(step_pair_writes(a, b, color), a.0, b.1),
        writes_dot(step_pair_writes(a, b, color), b.0, b.1),
        writes_dot(step_pair_writes(a, b, color), x, y) ==> (y == b.1 || x == a.0),
{
    let s1 = seg_writes(a.0, b.1, b.0, b.1, color);
    let s2 = seg_writes(a.0, a.1, a.0, b.1, color);
    lemma_writes_dot_concat(s1, s2, x, y);
    lemma_seg_writes_dot(a.0, b.1, b.0, b.1, color, x, y);
    lemma_seg_writes_dot(a.0, a.1, a.0, b.1, color, x, y);
    if segment_dot_seq(a.0, b.1, b.0, b.1).contains((x, y)) {
        let i = choose|i: int|
            0 <= i < segment_dot_seq(a.0, b.1, b.0, b.1).len() && segment_dot_seq(
                a.0,
                b.1,
                b.0,
                b.1,
            )[i] == ((x, y));
        assert(y == b.1);
    }
    if segment_dot_seq(a.0, a.1, a.0, b.1).contains((x, y)) {
        let i = choose|i: int|
            0 <= i < segment_dot_seq(a.0, a.1, a.0, b.1).len() && segment_dot_seq(
                a.0,
                a.1,
                a.0,
                b.1,
            )[i] == ((x, y));
        assert(x == a.0);
    }
    lemma_writes_dot_concat(s1, s2, a.0, a.1);
    lemma_seg_writes_dot(a.0, a.1, a.0, b.1, color, a.0, a.1);
    lemma_writes_dot_concat(s1, s2, a.0, b.1);
    lemma_seg_writes_dot(a.0, b.1, b.0, b.1, color, a.0, b.1);
    lemma_writes_dot_concat(s1, s2, b.0, b.1);
    lemma_seg_writes_dot(a.0, b.1, b.0, b.1, color, b.0, b.1);
}

/// A sampled column without a value stays a gap: rasterizing the sampled
/// shape writes no dot in that column. The hypothesis is the per-pair walker
/// fact that `figures` establishes for every registered sampled shape
/// (`shape_segs_ok` in its ensures).
pub proof fn lemma_gap_column(f: FrameV, s: Seq<Option<Rat>>, c: int, color: Color, x: int, y: int)
    requires
        0 <= c < s.len(),
        s[c] is None,
        crate::chart::pair_segs_ok(cont_dots(f, s)),
        x == c,
    ensures
        !writes_dot(cont_writes(cont_dots(f, s), color), x, y),
{
    lemma_cont_dots_cols(f, s);
    lemma_gap_rec(f, cont_dots(f, s), c, color, x, y);
}

/// Every present entry of the mapped sample list carries its column index as
/// its horizontal coordinate.
proof fn lemma_cont_dots_cols(f: FrameV, s: Seq<Option<Rat>>)
    ensures
        cont_dots(f, s).len() == s.len(),
        forall|i: int|
            0 <= i < s.len() ==> (cont_dots(f, s)[i] is Some <==> s[i] is Some),
        forall|i: int|
            0 <= i < s.len() && cont_dots(f, s)[i] is Some ==> (#[trigger] cont_dots(
                f,
                s,
            )[i]).unwrap().0 == i,
    decreases s.len(),
{
    if s.len() > 0 {
        lemma_cont_dots_cols(f, s.drop_last());
        assert(forall|i: int|
            0 <= i < s.len() - 1 ==> cont_dots(f, s)[i] == cont_dots(f, s.drop_last())[i]);
        assert(forall|i: int|
            0 <= i < s.len() - 1 ==> s.drop_last()[i] == s[i]);
    }
}

proof fn lemma_gap_rec(f: FrameV, cds: Seq<Option<(int, int)>>, c: int, color: Color, x: int, y: int)
    requires
        0 <= c < cds.len(),
        cds[c] is None,
        forall|i: int|
            0 <= i < cds.len() && cds[i] is Some ==> (#[trigger] cds[i]).unwrap().0 == i,
        crate::chart::pair_segs_ok(cds),
        x == c,
    ensures
        !writes_dot(cont_writes(cds, color), x, y),
    decreases cds.len(),
{
    if cds.len() <= 1 {
    } else {
        let last2 = cds[cds.len() - 2];
        let last1 = cds.last();
        assert(forall|i: int|
            0 <= i < cds.drop_last().len() ==> cds.drop_last()[i] == cds[i]);
        assert(crate::chart::pair_segs_ok(cds.drop_last())) by {
            lemma_pair_segs_ok_drop_last(cds);
        }
        if c < cds.len() - 1 {
            lemma_gap_rec(f, cds.drop_last(), c, color, x, y);
        } else {
            lemma_cont_no_dot_beyond(f, cds.drop_last(), c, color, x, y);
        }
        match (last2, last1) {
            (Some(a), Some(b)) => {
                lemma_writes_dot_concat(
                    cont_writes(cds.drop_last(), color),
                    seg_writes(a.0, a.1, b.0, b.1, color),
                    x,
                    y,
                );
                lemma_seg_writes_dot(a.0, a.1, b.0, b.1, color, x, y);
                if segment_dot_seq(a.0, a.1, b.0, b.1).contains((x, y)) {
                    let i = choose|i: int|
                        0 <= i < segment_dot_seq(a.0, a.1, b.0, b.1).len() && segment_dot_seq(
                            a.0,
                            a.1,
                            b.0,
                            b.1,
                        )[i] == ((x, y));
                    assert(seg_ok(a.0, a.1, b.0, b.1)) by {
                        assert((#[trigger] cds[cds.len() - 2]) is Some && cds[cds.len() - 1] is Some);
                    }
                    assert(a.0 <= x <= b.0);
                    assert(a.0 == cds.len() - 2 && b.0 == cds.len() - 1);
                    assert(x == cds.len() - 2 || x == cds.len() - 1);
                    assert(cds[x] is Some);
                    assert(false);
                }
            },
            _ => {
                lemma_writes_dot_concat(
                    cont_writes(cds.drop_last(), color),
                    Seq::<DotWrite>::empty(),
                    x,
                    y,
                );
                assert(cont_writes(cds, color) =~= cont_writes(cds.drop_last(), color)
                    + Seq::<DotWrite>::empty());
            },
        }
    }
}

/// No dot at or beyond column `c` is written when every sampled column past
/// `c - 1` is absent from the list.
proof fn lemma_cont_no_dot_beyond(
    f: FrameV,
    cds: Seq<Option<(int, int)>>,
    c: int,
    color: Color,
    x: int,
    y: int,
)
    requires
        cds.len() <= c,
        forall|i: int|
            0 <= i < cds.len() && cds[i] is Some ==> (#[trigger] cds[i]).unwrap().0 == i,
        crate::chart::pair_segs_ok(cds),
        x == c,
    ensures
        !writes_dot(cont_writes(cds, color), x, y),
    decreases cds.len(),
{
    if cds.len() <= 1 {
    } else {
        assert(forall|i: int| 0 <= i < cds.drop_last().len() ==> cds.drop_last()[i] == cds[i]);
        assert(crate::chart::pair_segs_ok(cds.drop_last())) by {
            lemma_pair_segs_ok_drop_last(cds);
        }
        lemma_cont_no_dot_beyond(f, cds.drop_last(), c, color, x, y);
        match (cds[cds.len() - 2], cds.last()) {
            (Some(a), Some(b)) => {
                lemma_writes_dot_concat(
                    cont_writes(cds.drop_last(), color),
                    seg_writes(a.0, a.1, b.0, b.1, color),
                    x,
                    y,
                );
                lemma_seg_writes_dot(a.0, a.1, b.0, b.1, color, x, y);
                if segment_dot_seq(a.0, a.1, b.0, b.1).contains((x, y)) {
                    let i = choose|i: int|
                        0 <= i < segment_dot_seq(a.0, a.1, b.0, b.1).len() && segment_dot_seq(
                            a.0,
                            a.1,
                            b.0,
                            b.1,
                        )[i] == ((x, y));
                    assert(seg_ok(a.0, a.1, b.0, b.1)) by {
                        assert((#[trigger] cds[cds.len() - 2]) is Some && cds[cds.len() - 1] is Some);
                    }
                    assert(x <= b.0 < c);
                    assert(false);
                }
            },
            _ => {
                lemma_writes_dot_concat(
                    cont_writes(cds.drop_last(), color),
                    Seq::<DotWrite>::empty(),
                    x,
                    y,
                );
                assert(cont_writes(cds, color) =~= cont_writes(cds.drop_last(), color)
                    + Seq::<DotWrite>::empty());
            },
        }
    }
}

/// The bar outline between two mapped dots `a` and `b` over baseline row
/// `h`, provided the segment walker meets its contract: the step outline is
/// written together with both baseline feet, and every written dot lies on
/// the flat run at `b`'s level or on one of the two columns — again no direct
/// diagonal joins the two dots.
pub proof fn lemma_bar_outline(
    a: (int, int),
    b: (int, int),
    h: int,
    color: Color,
    x: int,
    y: int,
)
    requires
        seg_ok(a.0, b.1, b.0, b.1),
        seg_ok(a.0, a.1, a.0, b.1),
        seg_ok(a.0, h, a.0, a.1),
        seg_ok(b.0, h, b.0, b.1),
    ensures
        writes_dot(crate::chart::bar_pair_writes(a, b, h, color), a.0, a.1),
        writes_dot(crate::chart::bar_pair_writes(a, b, h, color), b.0, b.1),
        writes_dot(crate::chart::bar_pair_writes(a, b, h, color), a.0, h),
        writes_dot(crate::chart::bar_pair_writes(a, b, h, color), b.0, h),
        writes_dot(crate::chart::bar_pair_writes(a, b, h, color), x, y) ==> (y == b.1 || x == a.0
            || x == b.0),
{
    let sp = step_pair_writes(a, b, color);
    let s3 = seg_writes(a.0, h, a.0, a.1, color);
    let s4 = seg_writes(b.0, h, b.0, b.1, color);
    lemma_step_outline(a, b, color, x, y);
    lemma_writes_dot_concat(sp, s3, x, y);
    lemma_writes_dot_concat(sp + s3, s4, x, y);
    lemma_seg_writes_dot(a.0, h, a.0, a.1, color, x, y);
    lemma_seg_writes_dot(b.0, h, b.0, b.1, color, x, y);
    if segment_dot_seq(a.0, h, a.0, a.1).contains((x, y)) {
        let i = choose|i: int|
            0 <= i < segment_dot_seq(a.0, h, a.0, a.1).len() && segment_dot_seq(
                a.0,
                h,
                a.0,
                a.1,
            )[i] == ((x, y));
        assert(x == a.0);
    }
    if segment_dot_seq(b.0, h, b.0, b.1).contains((x, y)) {
        let i = choose|i: int|
            0 <= i < segment_dot_seq(b.0, h, b.0, b.1).len() && segment_dot_seq(
                b.0,
                h,
                b.0,
                b.1,
            )[i] == ((x, y));
        assert(x == b.0);
    }
    lemma_writes_dot_concat(sp, s3, a.0, a.1);
    lemma_writes_dot_concat(sp + s3, s4, a.0, a.1);
    lemma_step_outline(a, b, color, a.0, a.1);
    lemma_writes_dot_concat(sp, s3, b.0, b.1);
    lemma_writes_dot_concat(sp + s3, s4, b.0, b.1);
    lemma_step_outline(a, b, color, b.0, b.1);
    lemma_writes_dot_concat(sp, s3, a.0, h);
    lemma_writes_dot_concat(sp + s3, s4, a.0, h);
    lemma_seg_writes_dot(a.0, h, a.0, a.1, color, a.0, h);
    lemma_writes_dot_concat(sp, s3, b.0, h);
    lemma_writes_dot_concat(sp + s3, s4, b.0, h);
    lemma_seg_writes_dot(b.0, h, b.0, b.1, color, b.0, h);
}

/// A dot the whole shape list writes was written by one of the shapes, and
/// every shape's dot shows up in the whole list's writes: the bridge from
/// the render contract of `figures` to the per-shape laws above.
pub proof fn lemma_shapes_writes_dot(f: FrameV, shapes: Seq<(ShapeV, Color)>, x: int, y: int)
    ensures
        writes_dot(shapes_writes(f, shapes), x, y) <==> exists|i: int|
            0 <= i < shapes.len() && writes_dot(
                shape_writes(f, (#[trigger] shapes[i]).0, shapes[i].1),
                x,
                y,
            ),
    decreases shapes.len(),
{
    if shapes.len() == 0 {
    } else {
        lemma_shapes_writes_dot(f, shapes.drop_last(), x, y);
        lemma_writes_dot_concat(
            shapes_writes(f, shapes.drop_last()),
            shape_writes(f, shapes.last().0, shapes.last().1),
            x,
            y,
        );
        if writes_dot(shapes_writes(f, shapes.drop_last()), x, y) {
            let i = choose|i: int|
                0 <= i < shapes.drop_last().len() && writes_dot(
                    shape_writes(f, (#[trigger] shapes.drop_last()[i]).0, shapes.drop_last()[i].1),
                    x,
                    y,
                );
            assert(shapes[i] == shapes.drop_last()[i]);
        }
        if writes_dot(shape_writes(f, shapes.last().0, shapes.last().1), x, y) {
            assert(shapes[shapes.len() - 1] == shapes.last());
        }
        if exists|i: int|
            0 <= i < shapes.len() && writes_dot(
                shape_writes(f, (#[trigger] shapes[i]).0, shapes[i].1),
                x,
                y,
            ) {
            let i = choose|i: int|
                0 <= i < shapes.len() && writes_dot(
                    shape_writes(f, (#[trigger] shapes[i]).0, shapes[i].1),
                    x,
                    y,
                );
            if i < shapes.len() - 1 {
                assert(shapes.drop_last()[i] == shapes[i]);
            }
        }
    }
}

/// Dropping the last sample keeps the walker facts of the remaining pairs.
proof fn lemma_pair_segs_ok_drop_last(cds: Seq<Option<(int, int)>>)
    requires
        cds.len() > 0,
        crate::chart::pair_segs_ok(cds),
    ensures
        crate::chart::pair_segs_ok(cds.drop_last()),
{
    assert forall|i: int|
        0 <= i < cds.drop_last().len() - 1 && (#[trigger] cds.drop_last()[i]) is Some
            && cds.drop_last()[i + 1] is Some implies seg_ok(
        cds.drop_last()[i].unwrap().0,
        cds.drop_last()[i].unwrap().1,
        cds.drop_last()[i + 1].unwrap().0,
        cds.drop_last()[i + 1].unwrap().1,
    ) by {
        assert(cds.drop_last()[i] == cds[i]);
        assert(cds.drop_last()[i + 1] == cds[i + 1]);
        assert((#[trigger] cds[i]) is Some && cds[i + 1] is Some);
    }
}

/// Rendering is idempotent at the canvas level: replaying the full write
/// sequence of an unchanged chart leaves every cell exactly as the first
/// rendering left it. Since the rendered text is a function of the cell grid,
/// the dimensions, the terminal styling state and the chart's bounds alone,
/// displaying an unchanged chart twice decorates the same grid both times.
pub proof fn lemma_render_idempotent(v: ChartV, cells: CellGrid)
    ensures
        apply_writes(apply_writes(cells, render_writes(v)), render_writes(v)) == apply_writes(
            cells,
            render_writes(v),
        ),
{
    lemma_apply_idempotent(cells, render_writes(v));
}

/// What one rendering leaves visible: a dot shows exactly when the grid
/// already showed it or some write of the render sequence paints it.
pub proof fn lemma_render_dots(v: ChartV, cells: CellGrid, x: int, y: int)
    ensures
        has_dot(apply_writes(cells, render_writes(v)), x, y) <==> (has_dot(cells, x, y)
            || writes_dot(render_writes(v), x, y)),
{
    lemma_apply_has_dot(cells, render_writes(v), x, y);
}

} // verus!
