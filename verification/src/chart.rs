//! The chart: canvas dimensions, domain bounds, auto-computed range bounds,
//! registered shapes, and the rasterization of every shape into dot writes.

use vstd::prelude::*;
use crate::canvas::{
    canvas_cells, canvas_cols, canvas_lines, canvas_line, canvas_new, canvas_set,
    canvas_set_colored, canvas_row_strings, seg_writes, seg_ok, segment_dot_seq,
};
use crate::color::Color;
use crate::frac::{
    Frac, Rat, frac_max, frac_min, rat_le, rat_lt, rat_of_int, rat_round, rat_small, SMALL_BOUND,
};
use crate::paint::{apply_writes, CellGrid, DotWrite, lemma_apply_concat, write_dot};
use crate::scale::{linear_map, Scale, ScaleV};

verus! {

/// One data point: a pair of axis values.
#[derive(Clone, Copy, Debug)]
pub struct Point {
    pub x: Frac,
    pub y: Frac,
}

impl View for Point {
    type V = (Rat, Rat);

    open spec fn view(&self) -> (Rat, Rat) {
        (self.x@, self.y@)
    }
}

/// Specifies different kinds of plotted data.
#[derive(Clone, Debug)]
pub enum Shape {
    /// A function sampled once per horizontal canvas column; `None` marks a
    /// column where the function yielded no plottable value (a gap).
    Continuous(Vec<Option<Frac>>),
    /// Points of a scatter plot.
    Points(Vec<Point>),
    /// Points connected with lines.
    Lines(Vec<Point>),
    /// Points connected in step fashion.
    Steps(Vec<Point>),
    /// Points represented with bars.
    Bars(Vec<Point>),
}

/// A shape at the specification level.
pub enum ShapeV {
    Continuous(Seq<Option<Rat>>),
    Points(Seq<(Rat, Rat)>),
    Lines(Seq<(Rat, Rat)>),
    Steps(Seq<(Rat, Rat)>),
    Bars(Seq<(Rat, Rat)>),
}

pub open spec fn opt_rat(o: Option<Frac>) -> Option<Rat> {
    match o {
        Some(f) => Some(f@),
        None => None,
    }
}

impl View for Shape {
    type V = ShapeV;

    open spec fn view(&self) -> ShapeV {
        match self {
            Shape::Continuous(s) => ShapeV::Continuous(s@.map_values(|o: Option<Frac>| opt_rat(o))),
            Shape::Points(ps) => ShapeV::Points(ps@.map_values(|p: Point| p@)),
            Shape::Lines(ps) => ShapeV::Lines(ps@.map_values(|p: Point| p@)),
            Shape::Steps(ps) => ShapeV::Steps(ps@.map_values(|p: Point| p@)),
            Shape::Bars(ps) => ShapeV::Bars(ps@.map_values(|p: Point| p@)),
        }
    }
}

/// The bounds and dimensions rasterization works from.
pub struct FrameV {
    pub width: int,
    pub height: int,
    pub xmin: Rat,
    pub xmax: Rat,
    pub ymin: Option<Rat>,
    pub ymax: Option<Rat>,
}

/// The horizontal scale: domain onto canvas columns.
pub open spec fn xscale_of(f: FrameV) -> ScaleV {
    ScaleV { dlo: f.xmin, dhi: f.xmax, rlo: rat_of_int(0), rhi: rat_of_int(f.width) }
}

/// The vertical scale: computed range onto canvas rows; meaningful only when
/// the range is set and of positive width.
pub open spec fn yscale_of(f: FrameV) -> ScaleV {
    ScaleV {
        dlo: f.ymin.unwrap(),
        dhi: f.ymax.unwrap(),
        rlo: rat_of_int(0),
        rhi: rat_of_int(f.height),
    }
}

/// Whether the vertical scale is usable.
pub open spec fn yscale_usable(f: FrameV) -> bool {
    f.ymin is Some && f.ymax is Some && rat_lt(f.ymin.unwrap(), f.ymax.unwrap())
}

/// The canvas column of a domain value.
pub open spec fn x_dot(f: FrameV, x: Rat) -> int {
    rat_round(linear_map(xscale_of(f), x))
}

/// The canvas row offset of a range value, from the bottom. With a degenerate
/// or unset vertical range every value maps to the bottom row.
pub open spec fn y_dot(f: FrameV, y: Rat) -> int {
    if yscale_usable(f) {
        rat_round(linear_map(yscale_of(f), y))
    } else {
        0
    }
}

/// The canvas dot of a data point; the vertical coordinate is flipped since
/// canvas row zero is at the top.
pub open spec fn map_dot(f: FrameV, p: (Rat, Rat)) -> (int, int) {
    (x_dot(f, p.0), f.height - y_dot(f, p.1))
}

/// Whether a horizontal value lies within the chart's domain.
pub open spec fn in_domain(f: FrameV, x: Rat) -> bool {
    rat_le(f.xmin, x) && rat_le(x, f.xmax)
}

/// The mapped dots of the points whose horizontal value lies in the domain,
/// in data order.
pub open spec fn mapped_pts(f: FrameV, pts: Seq<(Rat, Rat)>) -> Seq<(int, int)>
    decreases pts.len(),
{
    if pts.len() == 0 {
        Seq::empty()
    } else {
        let r = mapped_pts(f, pts.drop_last());
        if in_domain(f, pts.last().0) {
            r.push(map_dot(f, pts.last()))
        } else {
            r
        }
    }
}

/// One colored write per dot, in order: a scatter plot.
pub open spec fn scatter_writes(ds: Seq<(int, int)>, color: Color) -> Seq<DotWrite>
    decreases ds.len(),
{
    if ds.len() == 0 {
        Seq::empty()
    } else {
        scatter_writes(ds.drop_last(), color).push(
            DotWrite { x: ds.last().0, y: ds.last().1, colored: true, color },
        )
    }
}

/// A segment between each pair of consecutive dots: a polyline.
pub open spec fn polyline_writes(ds: Seq<(int, int)>, color: Color) -> Seq<DotWrite>
    decreases ds.len(),
{
    if ds.len() <= 1 {
        Seq::empty()
    } else {
        polyline_writes(ds.drop_last(), color) + seg_writes(
            ds[ds.len() - 2].0,
            ds[ds.len() - 2].1,
            ds.last().0,
            ds.last().1,
            color,
        )
    }
}

/// The two segments one step draws between consecutive dots `a` and `b`: the
/// flat run at `b`'s level, and the rise at `a`'s column.
pub open spec fn step_pair_writes(a: (int, int), b: (int, int), color: Color) -> Seq<DotWrite> {
    seg_writes(a.0, b.1, b.0, b.1, color) + seg_writes(a.0, a.1, a.0, b.1, color)
}

pub open spec fn steps_writes(ds: Seq<(int, int)>, color: Color) -> Seq<DotWrite>
    decreases ds.len(),
{
    if ds.len() <= 1 {
        Seq::empty()
    } else {
        steps_writes(ds.drop_last(), color) + step_pair_writes(
            ds[ds.len() - 2],
            ds.last(),
            color,
        )
    }
}

/// A step plus the two verticals dropping to the canvas baseline: a bar
/// outline.
pub open spec fn bar_pair_writes(a: (int, int), b: (int, int), h: int, color: Color) -> Seq<
    DotWrite,
> {
    step_pair_writes(a, b, color) + seg_writes(a.0, h, a.0, a.1, color) + seg_writes(
        b.0,
        h,
        b.0,
        b.1,
        color,
    )
}

pub open spec fn bars_writes(ds: Seq<(int, int)>, h: int, color: Color) -> Seq<DotWrite>
    decreases ds.len(),
{
    if ds.len() <= 1 {
        Seq::empty()
    } else {
        bars_writes(ds.drop_last(), h, color) + bar_pair_writes(ds[ds.len() - 2], ds.last(), h, color)
    }
}

/// The mapped dot of each column of a sampled function: the column index as
/// the horizontal coordinate, a gap column staying a gap.
pub open spec fn cont_dots(f: FrameV, s: Seq<Option<Rat>>) -> Seq<Option<(int, int)>>
    decreases s.len(),
{
    if s.len() == 0 {
        Seq::empty()
    } else {
        cont_dots(f, s.drop_last()).push(
            match s.last() {
                Some(y) => Some((s.len() - 1, f.height - y_dot(f, y))),
                None => None,
            },
        )
    }
}

/// A segment between each pair of adjacent columns that both carry a sample;
/// a gap breaks the polyline at its column.
pub open spec fn cont_writes(cds: Seq<Option<(int, int)>>, color: Color) -> Seq<DotWrite>
    decreases cds.len(),
{
    if cds.len() <= 1 {
        Seq::empty()
    } else {
        cont_writes(cds.drop_last(), color) + (match (cds[cds.len() - 2], cds.last()) {
            (Some(a), Some(b)) => seg_writes(a.0, a.1, b.0, b.1, color),
            _ => Seq::empty(),
        })
    }
}

/// The walker facts hold for every segment an adjacent pair of present
/// samples draws.
pub open spec fn pair_segs_ok(cds: Seq<Option<(int, int)>>) -> bool {
    forall|i: int|
        0 <= i < cds.len() - 1 && (#[trigger] cds[i]) is Some && cds[i + 1] is Some ==> seg_ok(
            cds[i].unwrap().0,
            cds[i].unwrap().1,
            cds[i + 1].unwrap().0,
            cds[i + 1].unwrap().1,
        )
}

/// The walker facts rasterizing one shape establishes: for a sampled shape,
/// every adjacent-pair segment obeys them.
pub open spec fn shape_segs_ok(f: FrameV, sh: ShapeV) -> bool {
    match sh {
        ShapeV::Continuous(s) => pair_segs_ok(cont_dots(f, s)),
        _ => true,
    }
}

/// Every dot write one shape performs at render time, in order.
pub open spec fn shape_writes(f: FrameV, sh: ShapeV, color: Color) -> Seq<DotWrite> {
    match sh {
        ShapeV::Continuous(s) => cont_writes(cont_dots(f, s), color),
        ShapeV::Points(ps) => scatter_writes(mapped_pts(f, ps), color),
        ShapeV::Lines(ps) => polyline_writes(mapped_pts(f, ps), color),
        ShapeV::Steps(ps) => steps_writes(mapped_pts(f, ps), color),
        ShapeV::Bars(ps) => bars_writes(mapped_pts(f, ps), f.height, color),
    }
}

/// Every dot write rendering the whole shape list performs, in registration
/// order: later shapes draw on top.
pub open spec fn shapes_writes(f: FrameV, shapes: Seq<(ShapeV, Color)>) -> Seq<DotWrite>
    decreases shapes.len(),
{
    if shapes.len() == 0 {
        Seq::empty()
    } else {
        shapes_writes(f, shapes.drop_last()) + shape_writes(
            f,
            shapes.last().0,
            shapes.last().1,
        )
    }
}

/// The y values a shape contributes to auto-ranging: every sample of a
/// sampled function, and of the discrete kinds the y of every point whose x
/// lies within the domain.
pub open spec fn kept_ys(xmin: Rat, xmax: Rat, sh: ShapeV) -> Seq<Rat> {
    match sh {
        ShapeV::Continuous(s) => some_samples(s),
        ShapeV::Points(ps) => kept_point_ys(xmin, xmax, ps),
        ShapeV::Lines(ps) => kept_point_ys(xmin, xmax, ps),
        ShapeV::Steps(ps) => kept_point_ys(xmin, xmax, ps),
        ShapeV::Bars(ps) => kept_point_ys(xmin, xmax, ps),
    }
}

pub open spec fn some_samples(s: Seq<Option<Rat>>) -> Seq<Rat>
    decreases s.len(),
{
    if s.len() == 0 {
        Seq::empty()
    } else {
        let r = some_samples(s.drop_last());
        match s.last() {
            Some(y) => r.push(y),
            None => r,
        }
    }
}

pub open spec fn kept_point_ys(xmin: Rat, xmax: Rat, ps: Seq<(Rat, Rat)>) -> Seq<Rat>
    decreases ps.len(),
{
    if ps.len() == 0 {
        Seq::empty()
    } else {
        let r = kept_point_ys(xmin, xmax, ps.drop_last());
        if rat_le(xmin, ps.last().0) && rat_le(ps.last().0, xmax) {
            r.push(ps.last().1)
        } else {
            r
        }
    }
}

/// The smallest value of a non-empty sequence; on ties the earliest.
pub open spec fn seq_min(s: Seq<Rat>) -> Rat
    decreases s.len(),
{
    if s.len() <= 1 {
        s[0]
    } else {
        let m = seq_min(s.drop_last());
        if rat_le(m, s.last()) {
            m
        } else {
            s.last()
        }
    }
}

/// The largest value of a non-empty sequence; on ties the earliest.
pub open spec fn seq_max(s: Seq<Rat>) -> Rat
    decreases s.len(),
{
    if s.len() <= 1 {
        s[0]
    } else {
        let m = seq_max(s.drop_last());
        if rat_le(s.last(), m) {
            m
        } else {
            s.last()
        }
    }
}

/// What one registration contributes to the lower range bound: the smallest
/// kept y value, or zero when the shape keeps none.
pub open spec fn contrib_min(xmin: Rat, xmax: Rat, sh: ShapeV) -> Rat {
    if kept_ys(xmin, xmax, sh).len() == 0 {
        rat_of_int(0)
    } else {
        seq_min(kept_ys(xmin, xmax, sh))
    }
}

pub open spec fn contrib_max(xmin: Rat, xmax: Rat, sh: ShapeV) -> Rat {
    if kept_ys(xmin, xmax, sh).len() == 0 {
        rat_of_int(0)
    } else {
        seq_max(kept_ys(xmin, xmax, sh))
    }
}

/// The lower range bound after registering one more shape: it extends, never
/// shrinks.
pub open spec fn next_ymin(ymin: Option<Rat>, xmin: Rat, xmax: Rat, sh: ShapeV) -> Rat {
    let c = contrib_min(xmin, xmax, sh);
    match ymin {
        None => c,
        Some(m) => if rat_le(m, c) {
            m
        } else {
            c
        },
    }
}

pub open spec fn next_ymax(ymax: Option<Rat>, xmin: Rat, xmax: Rat, sh: ShapeV) -> Rat {
    let c = contrib_max(xmin, xmax, sh);
    match ymax {
        None => c,
        Some(m) => if rat_le(c, m) {
            m
        } else {
            c
        },
    }
}

/// The chart at the specification level; the canvas state is tracked
/// separately as a cell grid.
pub struct ChartV {
    pub width: int,
    pub height: int,
    pub xmin: Rat,
    pub xmax: Rat,
    pub ymin: Option<Rat>,
    pub ymax: Option<Rat>,
    pub shapes: Seq<(ShapeV, Color)>,
    pub labels: Seq<(Seq<char>, Color)>,
}

pub open spec fn frame_of(v: ChartV) -> FrameV {
    FrameV {
        width: v.width,
        height: v.height,
        xmin: v.xmin,
        xmax: v.xmax,
        ymin: v.ymin,
        ymax: v.ymax,
    }
}

/// A well-formed shape: samples fill one column each, and every value is
/// small enough for the exact arithmetic.
pub open spec fn shape_wf(width: int, sh: ShapeV) -> bool {
    match sh {
        ShapeV::Continuous(s) => s.len() == width && forall|i: int|
            0 <= i < s.len() && s[i] is Some ==> rat_small((#[trigger] s[i]).unwrap()),
        ShapeV::Points(ps) => points_small(ps),
        ShapeV::Lines(ps) => points_small(ps),
        ShapeV::Steps(ps) => points_small(ps),
        ShapeV::Bars(ps) => points_small(ps),
    }
}

pub open spec fn points_small(ps: Seq<(Rat, Rat)>) -> bool {
    forall|i: int|
        0 <= i < ps.len() ==> rat_small((#[trigger] ps[i]).0) && rat_small(ps[i].1)
}

/// The range bounds cover every kept y value of every registered shape.
pub open spec fn bounds_cover(v: ChartV) -> bool {
    forall|i: int, j: int|
        0 <= i < v.shapes.len() && 0 <= j < kept_ys(v.xmin, v.xmax, (#[trigger] v.shapes[i]).0).len()
            ==> rat_le(v.ymin.unwrap(), #[trigger] kept_ys(v.xmin, v.xmax, v.shapes[i].0)[j])
                && rat_le(kept_ys(v.xmin, v.xmax, v.shapes[i].0)[j], v.ymax.unwrap())
}

/// A well-formed chart view.
pub open spec fn view_wf(v: ChartV) -> bool {
    &&& 32 <= v.width <= SMALL_BOUND as int
    &&& 32 <= v.height <= SMALL_BOUND as int
    &&& rat_small(v.xmin)
    &&& rat_small(v.xmax)
    &&& rat_lt(v.xmin, v.xmax)
    &&& (v.ymin is Some <==> v.ymax is Some)
    &&& (v.ymin is Some ==> rat_small(v.ymin.unwrap()) && rat_small(v.ymax.unwrap()) && rat_le(
        v.ymin.unwrap(),
        v.ymax.unwrap(),
    ))
    &&& (v.ymin is Some ==> bounds_cover(v))
    &&& (v.shapes.len() > 0 ==> v.ymin is Some)
    &&& forall|i: int| 0 <= i < v.shapes.len() ==> shape_wf(v.width, (#[trigger] v.shapes[i]).0)
}

/// Every key of the grid addresses a cell within the stored dimensions.
pub open spec fn grid_in_range(cells: CellGrid, width: int, height: int) -> bool {
    forall|k: (int, int)| #[trigger]
        cells.dom().contains(k) ==> 0 <= k.0 <= width / 2 && 0 <= k.1 <= height / 4
}

/// Every write of the sequence lands within the canvas dimensions.
pub open spec fn writes_in_range(ws: Seq<DotWrite>, width: int, height: int) -> bool {
    forall|i: int|
        0 <= i < ws.len() ==> 0 <= (#[trigger] ws[i]).x <= width && 0 <= ws[i].y <= height
}

/// Controls the drawing.
pub struct Chart {
    width: u32,
    height: u32,
    xmin: Frac,
    xmax: Frac,
    ymin: Option<Frac>,
    ymax: Option<Frac>,
    shapes: Vec<(Shape, Color)>,
    labels: Vec<(String, Color)>,
    canvas: drawille::Canvas,
}

impl View for Chart {
    type V = ChartV;

    closed spec fn view(&self) -> ChartV {
        ChartV {
            width: self.width as int,
            height: self.height as int,
            xmin: self.xmin@,
            xmax: self.xmax@,
            ymin: match self.ymin {
                Some(f) => Some(f@),
                None => None,
            },
            ymax: match self.ymax {
                Some(f) => Some(f@),
                None => None,
            },
            shapes: self.shapes@.map_values(|sc: (Shape, Color)| (sc.0@, sc.1)),
            labels: self.labels@.map_values(|lc: (String, Color)| (lc.0@, lc.1)),
        }
    }
}

impl Chart {
    /// The canvas cell grid the chart has drawn so far.
    pub closed spec fn cells(&self) -> CellGrid {
        canvas_cells(self.canvas)
    }

    /// The canvas dimensions agree with the chart's, and everything drawn so
    /// far lies within them.
    pub closed spec fn canvas_ok(&self) -> bool {
        &&& canvas_cols(self.canvas) == self@.width / 2
        &&& canvas_lines(self.canvas) == self@.height / 4
        &&& grid_in_range(self.cells(), self@.width, self@.height)
    }

    /// A well-formed chart.
    pub open spec fn wf(&self) -> bool {
        view_wf(self@) && self.canvas_ok()
    }

    /// Creates a new chart over the given domain. Both dimensions must be at
    /// least 32 (smaller surfaces are not supported) and the domain interval
    /// must have positive width; values must be small enough for the exact
    /// arithmetic.
    pub fn new(width: u32, height: u32, xmin: Frac, xmax: Frac) -> (c: Chart)
        requires
            32 <= width <= SMALL_BOUND as u32,
            32 <= height <= SMALL_BOUND as u32,
            xmin.small(),
            xmax.small(),
            rat_lt(xmin@, xmax@),
        ensures
            c.wf(),
            c@ == (ChartV {
                width: width as int,
                height: height as int,
                xmin: xmin@,
                xmax: xmax@,
                ymin: None::<Rat>,
                ymax: None::<Rat>,
                shapes: Seq::<(ShapeV, Color)>::empty(),
                labels: Seq::<(Seq<char>, Color)>::empty(),
            }),
            c.cells() == Map::<(int, int), crate::paint::Cell>::empty(),
    {
        let c = Chart {
            width,
            height,
            xmin,
            xmax,
            ymin: None,
            ymax: None,
            shapes: Vec::new(),
            labels: Vec::new(),
            canvas: canvas_new(width, height),
        };
        proof {
            assert(c@.shapes =~= Seq::<(ShapeV, Color)>::empty());
            assert(c@.labels =~= Seq::<(Seq<char>, Color)>::empty());
        }
        c
    }

    /// The default chart: 120 x 60 dots over the domain [-10, 10].
    pub fn default_chart() -> (c: Chart)
        ensures
            c.wf(),
            c@.width == 120 && c@.height == 60,
            c@.xmin == rat_of_int(-10) && c@.xmax == rat_of_int(10),
            c@.ymin is None && c@.ymax is None,
            c@.shapes.len() == 0 && c@.labels.len() == 0,
            c.cells() =~= Map::empty(),
    {
        Chart::new(120, 60, Frac::from_int(-10), Frac::from_int(10))
    }

    /// The computed lower range bound, once a shape was registered.
    pub fn ymin_bound(&self) -> (r: Option<Frac>)
        ensures
            match r {
                Some(f) => self@.ymin == Some(f@),
                None => self@.ymin is None,
            },
    {
        self.ymin
    }

    /// The computed upper range bound, once a shape was registered.
    pub fn ymax_bound(&self) -> (r: Option<Frac>)
        ensures
            match r {
                Some(f) => self@.ymax == Some(f@),
                None => self@.ymax is None,
            },
    {
        self.ymax
    }
}

impl Default for Chart {
    /// The default chart, see [`Chart::default_chart`].
    fn default() -> (c: Chart)
        ensures
            c.wf(),
            c@.width == 120 && c@.height == 60,
            c@.xmin == rat_of_int(-10) && c@.xmax == rat_of_int(10),
            c@.ymin is None && c@.ymax is None,
            c@.shapes.len() == 0 && c@.labels.len() == 0,
            c.cells() =~= Map::empty(),
    {
        Chart::default_chart()
    }
}

} // verus!

verus! {

/// The smallest element of a non-empty sequence of valid rationals is a
/// lower bound of all of them, and is one of them.
pub proof fn lemma_seq_min_le(s: Seq<Rat>, j: int)
    requires
        0 <= j < s.len(),
        forall|k: int| 0 <= k < s.len() ==> (#[trigger] s[k]).d > 0,
    ensures
        rat_le(seq_min(s), s[j]),
        exists|k: int| 0 <= k < s.len() && seq_min(s) == s[k],
    decreases s.len(),
{
    if s.len() <= 1 {
    } else {
        let m = seq_min(s.drop_last());
        lemma_seq_min_le(s.drop_last(), if j < s.len() - 1 { j } else { 0 });
        let k0 = choose|k: int| 0 <= k < s.drop_last().len() && seq_min(s.drop_last()) == s.drop_last()[k];
        assert(s.drop_last()[k0] == s[k0]);
        if j < s.len() - 1 {
            lemma_seq_min_le(s.drop_last(), j);
            assert(s.drop_last()[j] == s[j]);
            if !rat_le(m, s.last()) {
                crate::frac::lemma_rat_le_trans_lt(s.last(), m, s[j]);
            }
        } else {
            if rat_le(m, s.last()) {
            }
        }
    }
}

/// The largest element of a non-empty sequence of valid rationals is an
/// upper bound of all of them, and is one of them.
pub proof fn lemma_seq_max_ge(s: Seq<Rat>, j: int)
    requires
        0 <= j < s.len(),
        forall|k: int| 0 <= k < s.len() ==> (#[trigger] s[k]).d > 0,
    ensures
        rat_le(s[j], seq_max(s)),
        exists|k: int| 0 <= k < s.len() && seq_max(s) == s[k],
    decreases s.len(),
{
    if s.len() <= 1 {
    } else {
        let m = seq_max(s.drop_last());
        lemma_seq_max_ge(s.drop_last(), if j < s.len() - 1 { j } else { 0 });
        let k0 = choose|k: int| 0 <= k < s.drop_last().len() && seq_max(s.drop_last()) == s.drop_last()[k];
        assert(s.drop_last()[k0] == s[k0]);
        if j < s.len() - 1 {
            lemma_seq_max_ge(s.drop_last(), j);
            assert(s.drop_last()[j] == s[j]);
            if !rat_le(s.last(), m) {
                crate::frac::lemma_rat_lt_le_trans(s[j], m, s.last());
            }
        } else {
            if rat_le(s.last(), m) {
            }
        }
    }
}

impl Chart {
    /// Registers a shape: appends it (and its optional label) to the draw
    /// list and extends the vertical range to cover the shape's kept y
    /// values; a shape that keeps none pulls the range toward zero.
    pub fn lineplot_with_tags(&mut self, shape: Shape, label: Option<String>, color: Color)
        requires
            old(self).wf(),
            shape_wf(old(self)@.width, shape@),
        ensures
            final(self).wf(),
            final(self)@.shapes == old(self)@.shapes.push((shape@, color)),
            final(self)@.labels == (match label {
                Some(l) => old(self)@.labels.push((l@, color)),
                None => old(self)@.labels,
            }),
            final(self)@.width == old(self)@.width,
            final(self)@.height == old(self)@.height,
            final(self)@.xmin == old(self)@.xmin,
            final(self)@.xmax == old(self)@.xmax,
            final(self)@.ymin == Some(
                next_ymin(old(self)@.ymin, old(self)@.xmin, old(self)@.xmax, shape@),
            ),
            final(self)@.ymax == Some(
                next_ymax(old(self)@.ymax, old(self)@.xmin, old(self)@.xmax, shape@),
            ),
            final(self).cells() == old(self).cells(),
    {
        let ghost v0 = self@;
        let ghost shv = shape@;
        let ghost keptspec = kept_ys(v0.xmin, v0.xmax, shv);
        let kept: Vec<Frac> = match &shape {
            Shape::Continuous(samples) => {
                let mut ks: Vec<Frac> = Vec::new();
                let ghost sv = samples@.map_values(|o: Option<Frac>| opt_rat(o));
                let mut i: usize = 0;
                while i < samples.len()
                    invariant
                        i <= samples.len(),
                        sv == samples@.map_values(|o: Option<Frac>| opt_rat(o)),
                        ks@.map_values(|f: Frac| f@) == some_samples(sv.take(i as int)),
                        forall|k: int| 0 <= k < i ==> opt_rat(samples@[k]) == sv[k],
                        forall|k: int|
                            0 <= k < sv.len() && sv[k] is Some ==> rat_small(
                                (#[trigger] sv[k]).unwrap(),
                            ),
                        forall|k: int| 0 <= k < ks@.len() ==> rat_small((#[trigger] ks@[k])@),
                    decreases samples.len() - i,
                {
                    proof {
                        assert(sv.take(i + 1).drop_last() =~= sv.take(i as int));
                        assert(sv.take(i + 1).last() == sv[i as int]);
                    }
                    if let Some(f) = samples[i] {
                        ks.push(f);
                        proof {
                            assert(ks@.map_values(|f: Frac| f@) =~= ks@.drop_last().map_values(
                                |f: Frac| f@,
                            ).push(f@));
                        }
                    }
                    i += 1;
                }
                proof {
                    assert(sv.take(samples@.len() as int) =~= sv);
                }
                ks
            },
            Shape::Points(ps) | Shape::Lines(ps) | Shape::Steps(ps) | Shape::Bars(ps) => {
                let mut ks: Vec<Frac> = Vec::new();
                let ghost pv = ps@.map_values(|p: Point| p@);
                let mut i: usize = 0;
                while i < ps.len()
                    invariant
                        i <= ps.len(),
                        pv == ps@.map_values(|p: Point| p@),
                        ks@.map_values(|f: Frac| f@) == kept_point_ys(v0.xmin, v0.xmax, pv.take(i as int)),
                        points_small(pv),
                        self.xmin.small(),
                        self.xmax.small(),
                        self@.xmin == v0.xmin,
                        self@.xmax == v0.xmax,
                        forall|k: int| 0 <= k < ks@.len() ==> rat_small((#[trigger] ks@[k])@),
                    decreases ps.len() - i,
                {
                    proof {
                        assert(pv.take(i + 1).drop_last() =~= pv.take(i as int));
                        assert(pv.take(i + 1).last() == pv[i as int]);
                        assert(ps@[i as int]@ == pv[i as int]);
                    }
                    let p = ps[i];
                    if self.xmin.le(&p.x) && p.x.le(&self.xmax) {
                        ks.push(p.y);
                        proof {
                            assert(ks@.map_values(|f: Frac| f@) =~= ks@.drop_last().map_values(
                                |f: Frac| f@,
                            ).push(p.y@));
                        }
                    }
                    i += 1;
                }
                proof {
                    assert(pv.take(ps@.len() as int) =~= pv);
                }
                ks
            },
        };
        let ghost keptr = kept@.map_values(|f: Frac| f@);
        proof {
            assert(keptr == keptspec);
        }
        let (mn, mx) = if kept.len() == 0 {
            (Frac::from_int(0), Frac::from_int(0))
        } else {
            let mut mn = kept[0];
            let mut mx = kept[0];
            let mut k: usize = 1;
            while k < kept.len()
                invariant
                    1 <= k <= kept.len(),
                    kept@.len() == keptr.len(),
                    keptr == kept@.map_values(|f: Frac| f@),
                    forall|j: int| 0 <= j < kept@.len() ==> rat_small((#[trigger] kept@[j])@),
                    mn@ == seq_min(keptr.take(k as int)),
                    mx@ == seq_max(keptr.take(k as int)),
                    rat_small(mn@),
                    rat_small(mx@),
                decreases kept.len() - k,
            {
                proof {
                    assert(keptr.take(k + 1).drop_last() =~= keptr.take(k as int));
                    assert(keptr.take(k + 1).last() == keptr[k as int]);
                    assert(kept@[k as int]@ == keptr[k as int]);
                }
                mn = frac_min(mn, kept[k]);
                mx = frac_max(mx, kept[k]);
                k += 1;
            }
            proof {
                assert(keptr.take(kept@.len() as int) =~= keptr);
            }
            (mn, mx)
        };
        proof {
            assert(mn@ == contrib_min(v0.xmin, v0.xmax, shv));
            assert(mx@ == contrib_max(v0.xmin, v0.xmax, shv));
        }
        let new_ymin = match self.ymin {
            Some(c) => frac_min(c, mn),
            None => mn,
        };
        let new_ymax = match self.ymax {
            Some(c) => frac_max(c, mx),
            None => mx,
        };
        self.ymin = Some(new_ymin);
        self.ymax = Some(new_ymax);
        self.shapes.push((shape, color));
        let ghost lv: Option<Seq<char>> = (match &label {
            Some(l) => Some(l@),
            None => None,
        });
        match label {
            Some(l) => self.labels.push((l, color)),
            None => {},
        }
        proof {
            let v1 = self@;
            assert(v1.shapes =~= v0.shapes.push((shv, color)));
            match lv {
                Some(l) => {
                    assert(v1.labels =~= v0.labels.push((l, color)));
                },
                None => {
                    assert(v1.labels =~= v0.labels);
                },
            }
            lemma_next_bounds_wf(v0, v1, shv, color);
        }
    }

    /// Registers a shape with no label, drawn in white.
    pub fn lineplot(&mut self, shape: Shape)
        requires
            old(self).wf(),
            shape_wf(old(self)@.width, shape@),
        ensures
            final(self).wf(),
            final(self)@.shapes == old(self)@.shapes.push((shape@, Color::White)),
            final(self)@.labels == old(self)@.labels,
            final(self)@.width == old(self)@.width,
            final(self)@.height == old(self)@.height,
            final(self)@.xmin == old(self)@.xmin,
            final(self)@.xmax == old(self)@.xmax,
            final(self)@.ymin == Some(
                next_ymin(old(self)@.ymin, old(self)@.xmin, old(self)@.xmax, shape@),
            ),
            final(self)@.ymax == Some(
                next_ymax(old(self)@.ymax, old(self)@.xmin, old(self)@.xmax, shape@),
            ),
            final(self).cells() == old(self).cells(),
    {
        self.lineplot_with_tags(shape, None, Color::White)
    }
}

/// Registering one shape preserves well-formedness: the extended bounds cover
/// the new shape's kept values and everything they covered before.
proof fn lemma_next_bounds_wf(v0: ChartV, v1: ChartV, sh: ShapeV, color: Color)
    requires
        view_wf(v0),
        shape_wf(v0.width, sh),
        v1.width == v0.width,
        v1.height == v0.height,
        v1.xmin == v0.xmin,
        v1.xmax == v0.xmax,
        v1.shapes == v0.shapes.push((sh, color)),
        v1.ymin == Some(next_ymin(v0.ymin, v0.xmin, v0.xmax, sh)),
        v1.ymax == Some(next_ymax(v0.ymax, v0.xmin, v0.xmax, sh)),
    ensures
        view_wf(v1),
{
    let kept = kept_ys(v0.xmin, v0.xmax, sh);
    let cmin = contrib_min(v0.xmin, v0.xmax, sh);
    let cmax = contrib_max(v0.xmin, v0.xmax, sh);
    let nmin = next_ymin(v0.ymin, v0.xmin, v0.xmax, sh);
    let nmax = next_ymax(v0.ymax, v0.xmin, v0.xmax, sh);
    lemma_kept_small(v0.xmin, v0.xmax, sh, v0.width);
    assert(rat_small(cmin) && rat_small(cmax)) by {
        if kept.len() > 0 {
            lemma_seq_min_le(kept, 0);
            lemma_seq_max_ge(kept, 0);
        }
    }
    assert(rat_le(cmin, cmax)) by {
        if kept.len() > 0 {
            lemma_seq_min_le(kept, 0);
            let k0 = choose|k: int| 0 <= k < kept.len() && seq_min(kept) == kept[k];
            lemma_seq_max_ge(kept, k0);
        }
    }
    assert(rat_le(nmin, nmax)) by {
        match v0.ymin {
            Some(m0) => {
                let mx0 = v0.ymax.unwrap();
                if rat_le(m0, cmin) {
                    if rat_le(cmax, mx0) {
                        // nmin == m0, nmax == mx0
                    } else {
                        crate::frac::lemma_rat_le_trans(m0, cmin, cmax);
                    }
                } else {
                    if rat_le(cmax, mx0) {
                        crate::frac::lemma_rat_le_trans(cmin, cmax, mx0);
                    }
                }
            },
            None => {},
        }
    }
    assert(bounds_cover(v1)) by {
        assert forall|i: int, j: int|
            0 <= i < v1.shapes.len() && 0 <= j < kept_ys(v1.xmin, v1.xmax, (#[trigger] v1.shapes[i]).0).len()
            implies rat_le(v1.ymin.unwrap(), #[trigger] kept_ys(v1.xmin, v1.xmax, v1.shapes[i].0)[j])
            && rat_le(kept_ys(v1.xmin, v1.xmax, v1.shapes[i].0)[j], v1.ymax.unwrap()) by {
            if i < v0.shapes.len() {
                assert(v1.shapes[i] == v0.shapes[i]);
                let y = kept_ys(v0.xmin, v0.xmax, v0.shapes[i].0)[j];
                lemma_kept_small(v0.xmin, v0.xmax, v0.shapes[i].0, v0.width);
                let m0 = v0.ymin.unwrap();
                let mx0 = v0.ymax.unwrap();
                assert(rat_le(m0, y) && rat_le(y, mx0));
                if !rat_le(m0, cmin) {
                    crate::frac::lemma_rat_le_trans(cmin, m0, y);
                }
                if !rat_le(cmax, mx0) {
                    crate::frac::lemma_rat_le_trans(y, mx0, cmax);
                }
            } else {
                assert(v1.shapes[i] == (sh, color));
                let y = kept[j];
                lemma_seq_min_le(kept, j);
                lemma_seq_max_ge(kept, j);
                match v0.ymin {
                    Some(m0) => {
                        if !rat_le(m0, cmin) {
                        } else {
                            crate::frac::lemma_rat_le_trans(m0, cmin, y);
                        }
                        if !rat_le(cmax, v0.ymax.unwrap()) {
                        } else {
                            crate::frac::lemma_rat_le_trans(y, cmax, v0.ymax.unwrap());
                        }
                    },
                    None => {},
                }
            }
        }
    }
}

/// Every kept y value of a well-formed shape is small.
proof fn lemma_kept_small(xmin: Rat, xmax: Rat, sh: ShapeV, width: int)
    requires
        shape_wf(width, sh),
    ensures
        forall|j: int|
            0 <= j < kept_ys(xmin, xmax, sh).len() ==> rat_small(
                #[trigger] kept_ys(xmin, xmax, sh)[j],
            ),
{
    match sh {
        ShapeV::Continuous(s) => {
            lemma_some_samples_small(s);
        },
        ShapeV::Points(ps) => lemma_kept_point_ys_small(xmin, xmax, ps),
        ShapeV::Lines(ps) => lemma_kept_point_ys_small(xmin, xmax, ps),
        ShapeV::Steps(ps) => lemma_kept_point_ys_small(xmin, xmax, ps),
        ShapeV::Bars(ps) => lemma_kept_point_ys_small(xmin, xmax, ps),
    }
}

proof fn lemma_some_samples_small(s: Seq<Option<Rat>>)
    requires
        forall|i: int| 0 <= i < s.len() && s[i] is Some ==> rat_small((#[trigger] s[i]).unwrap()),
    ensures
        forall|j: int|
            0 <= j < some_samples(s).len() ==> rat_small(#[trigger] some_samples(s)[j]),
    decreases s.len(),
{
    if s.len() == 0 {
    } else {
        assert(forall|i: int|
            0 <= i < s.drop_last().len() && s.drop_last()[i] is Some ==> rat_small(
                (#[trigger] s.drop_last()[i]).unwrap(),
            ));
        lemma_some_samples_small(s.drop_last());
        let r = some_samples(s.drop_last());
        assert forall|j: int| 0 <= j < some_samples(s).len() implies rat_small(
            #[trigger] some_samples(s)[j],
        ) by {
            if j < r.len() {
                assert(some_samples(s)[j] == r[j]);
            } else {
                assert(s.last() == s[s.len() - 1]);
            }
        }
    }
}

proof fn lemma_kept_point_ys_small(xmin: Rat, xmax: Rat, ps: Seq<(Rat, Rat)>)
    requires
        points_small(ps),
    ensures
        forall|j: int|
            0 <= j < kept_point_ys(xmin, xmax, ps).len() ==> rat_small(
                #[trigger] kept_point_ys(xmin, xmax, ps)[j],
            ),
    decreases ps.len(),
{
    if ps.len() == 0 {
    } else {
        assert(points_small(ps.drop_last())) by {
            assert(forall|i: int|
                0 <= i < ps.drop_last().len() ==> ps.drop_last()[i] == ps[i]);
        }
        lemma_kept_point_ys_small(xmin, xmax, ps.drop_last());
        let r = kept_point_ys(xmin, xmax, ps.drop_last());
        assert forall|j: int| 0 <= j < kept_point_ys(xmin, xmax, ps).len() implies rat_small(
            #[trigger] kept_point_ys(xmin, xmax, ps)[j],
        ) by {
            if j < r.len() {
                assert(kept_point_ys(xmin, xmax, ps)[j] == r[j]);
            } else {
                assert(ps.last() == ps[ps.len() - 1]);
            }
        }
    }
}

} // verus!

verus! {

/// Maps the in-domain points of a discrete shape into canvas dots.
fn map_point_dots(
    width: u32,
    height: u32,
    xmin: Frac,
    xmax: Frac,
    ymin: Option<Frac>,
    ymax: Option<Frac>,
    pts: &Vec<Point>,
) -> (r: Vec<(u32, u32)>)
    requires
        32 <= width <= SMALL_BOUND as u32,
        32 <= height <= SMALL_BOUND as u32,
        xmin.small(),
        xmax.small(),
        rat_lt(xmin@, xmax@),
        (ymin is Some <==> ymax is Some),
        (ymin is Some ==> ymin.unwrap().small() && ymax.unwrap().small() && rat_le(
            ymin.unwrap()@,
            ymax.unwrap()@,
        )),
        points_small(pts@.map_values(|p: Point| p@)),
    ensures
        r@.map_values(|d: (u32, u32)| (d.0 as int, d.1 as int)) == mapped_pts(
            (FrameV {
                width: width as int,
                height: height as int,
                xmin: xmin@,
                xmax: xmax@,
                ymin: opt_view(ymin),
                ymax: opt_view(ymax),
            }),
            pts@.map_values(|p: Point| p@),
        ),
        forall|i: int| 0 <= i < r@.len() ==> (#[trigger] r@[i]).0 <= width && r@[i].1 <= height,
{
    let ghost fv = FrameV {
        width: width as int,
        height: height as int,
        xmin: xmin@,
        xmax: xmax@,
        ymin: opt_view(ymin),
        ymax: opt_view(ymax),
    };
    let ghost pv = pts@.map_values(|p: Point| p@);
    let xs = Scale::new(xmin, xmax, Frac::from_int(0), Frac::from_int(width as i128));
    let ys: Option<Scale> = match (&ymin, &ymax) {
        (Some(a), Some(b)) => {
            if a.lt(b) {
                Some(Scale::new(*a, *b, Frac::from_int(0), Frac::from_int(height as i128)))
            } else {
                None
            }
        },
        _ => None,
    };
    proof {
        assert(xs@ == xscale_of(fv));
        assert(ys is Some <==> yscale_usable(fv));
        if ys is Some {
            assert(ys.unwrap()@ == yscale_of(fv));
        }
    }
    let mut r: Vec<(u32, u32)> = Vec::new();
    let mut j: usize = 0;
    while j < pts.len()
        invariant
            j <= pts.len(),
            pv == pts@.map_values(|p: Point| p@),
            points_small(pv),
            xs@ == xscale_of(fv),
            xs.wf(),
            (ys is Some <==> yscale_usable(fv)),
            (ys is Some ==> ys.unwrap()@ == yscale_of(fv) && ys.unwrap().wf()),
            fv.width == width as int,
            fv.height == height as int,
            fv.xmin == xmin@,
            fv.xmax == xmax@,
            32 <= width,
            32 <= height,
            r@.map_values(|d: (u32, u32)| (d.0 as int, d.1 as int)) == mapped_pts(fv, pv.take(j as int)),
            forall|i: int| 0 <= i < r@.len() ==> (#[trigger] r@[i]).0 <= width && r@[i].1 <= height,
        decreases pts.len() - j,
    {
        proof {
            assert(pv.take(j + 1).drop_last() =~= pv.take(j as int));
            assert(pv.take(j + 1).last() == pv[j as int]);
            assert(pts@[j as int]@ == pv[j as int]);
        }
        let p = pts[j];
        if xmin.le(&p.x) && p.x.le(&xmax) {
            let fx = xs.linear(&p.x);
            let xi = fx.round_val();
            proof {
                crate::frac::lemma_round_bounds(fx@, 0, width as int);
            }
            let yj: i128 = match &ys {
                Some(s) => {
                    let fy = s.linear(&p.y);
                    proof {
                        crate::frac::lemma_round_bounds(fy@, 0, height as int);
                    }
                    fy.round_val()
                },
                None => 0,
            };
            let d = ((xi as u32, height - (yj as u32)));
            r.push(d);
            proof {
                assert(x_dot(fv, pv[j as int].0) == xi as int);
                assert(y_dot(fv, pv[j as int].1) == yj as int);
                assert((d.0 as int, d.1 as int) == map_dot(fv, pv[j as int]));
                assert(r@.map_values(|d: (u32, u32)| (d.0 as int, d.1 as int)) =~= r@.drop_last().map_values(
                    |d: (u32, u32)| (d.0 as int, d.1 as int),
                ).push((d.0 as int, d.1 as int)));
            }
        }
        j += 1;
    }
    proof {
        assert(pv.take(pts@.len() as int) =~= pv);
    }
    r
}

/// The view of an optional fraction.
pub open spec fn opt_view(o: Option<Frac>) -> Option<Rat> {
    match o {
        Some(f) => Some(f@),
        None => None,
    }
}

} // verus!

verus! {

/// Draws one colored dot per entry: a scatter plot.
fn draw_scatter(canvas: &mut drawille::Canvas, w: u32, h: u32, dots: &Vec<(u32, u32)>, color: Color)
    requires
        w <= 65535,
        h <= 65535,
        crate::paint::grid_in_range(canvas_cells(*old(canvas)), w as int, h as int),
        forall|i: int| 0 <= i < dots@.len() ==> (#[trigger] dots@[i]).0 <= w && dots@[i].1 <= h,
    ensures
        canvas_cells(*final(canvas)) == apply_writes(
            canvas_cells(*old(canvas)),
            scatter_writes(dots@.map_values(|d: (u32, u32)| (d.0 as int, d.1 as int)), color),
        ),
        canvas_cols(*final(canvas)) == canvas_cols(*old(canvas)),
        canvas_lines(*final(canvas)) == canvas_lines(*old(canvas)),
        crate::paint::grid_in_range(canvas_cells(*final(canvas)), w as int, h as int),
{
    let ghost ds = dots@.map_values(|d: (u32, u32)| (d.0 as int, d.1 as int));
    let ghost cells0 = canvas_cells(*canvas);
    let mut k: usize = 0;
    while k < dots.len()
        invariant
            k <= dots.len(),
            w <= 65535,
            h <= 65535,
            ds == dots@.map_values(|d: (u32, u32)| (d.0 as int, d.1 as int)),
            forall|i: int| 0 <= i < dots@.len() ==> (#[trigger] dots@[i]).0 <= w && dots@[i].1 <= h,
            canvas_cells(*canvas) == apply_writes(cells0, scatter_writes(ds.take(k as int), color)),
            canvas_cols(*canvas) == canvas_cols(*old(canvas)),
            canvas_lines(*canvas) == canvas_lines(*old(canvas)),
            crate::paint::grid_in_range(canvas_cells(*canvas), w as int, h as int),
        decreases dots.len() - k,
    {
        proof {
            assert(ds.take(k + 1).drop_last() =~= ds.take(k as int));
            assert(ds.take(k + 1).last() == ds[k as int]);
        }
        let ghost pre = canvas_cells(*canvas);
        let d = dots[k];
        canvas_set_colored(canvas, d.0, d.1, color);
        proof {
            let wr = DotWrite { x: d.0 as int, y: d.1 as int, colored: true, color };
            assert(scatter_writes(ds.take(k + 1), color) =~= scatter_writes(ds.take(k as int), color)
                + seq![wr]);
            lemma_apply_concat(cells0, scatter_writes(ds.take(k as int), color), seq![wr]);
            crate::paint::lemma_apply_one(pre, wr);
            assert(crate::paint::writes_in_range(seq![wr], w as int, h as int));
            crate::paint::lemma_apply_preserves_range(pre, seq![wr], w as int, h as int);
            assert(apply_writes(pre, seq![wr]) == canvas_cells(*canvas));
        }
        k += 1;
    }
    proof {
        assert(ds.take(dots@.len() as int) =~= ds);
    }
}

/// Draws one colored segment between each pair of consecutive dots.
fn draw_polyline(canvas: &mut drawille::Canvas, w: u32, h: u32, dots: &Vec<(u32, u32)>, color: Color)
    requires
        w <= 65535,
        h <= 65535,
        crate::paint::grid_in_range(canvas_cells(*old(canvas)), w as int, h as int),
        forall|i: int| 0 <= i < dots@.len() ==> (#[trigger] dots@[i]).0 <= w && dots@[i].1 <= h,
    ensures
        canvas_cells(*final(canvas)) == apply_writes(
            canvas_cells(*old(canvas)),
            polyline_writes(dots@.map_values(|d: (u32, u32)| (d.0 as int, d.1 as int)), color),
        ),
        canvas_cols(*final(canvas)) == canvas_cols(*old(canvas)),
        canvas_lines(*final(canvas)) == canvas_lines(*old(canvas)),
        crate::paint::grid_in_range(canvas_cells(*final(canvas)), w as int, h as int),
{
    let ghost ds = dots@.map_values(|d: (u32, u32)| (d.0 as int, d.1 as int));
    let ghost cells0 = canvas_cells(*canvas);
    if dots.len() < 2 {
        proof {
            assert(polyline_writes(ds, color) =~= Seq::<DotWrite>::empty());
            assert(apply_writes(cells0, Seq::<DotWrite>::empty()) == cells0);
        }
        return ;
    }
    let mut k: usize = 1;
    while k < dots.len()
        invariant
            1 <= k <= dots.len(),
            dots.len() >= 2,
            w <= 65535,
            h <= 65535,
            ds == dots@.map_values(|d: (u32, u32)| (d.0 as int, d.1 as int)),
            forall|i: int| 0 <= i < dots@.len() ==> (#[trigger] dots@[i]).0 <= w && dots@[i].1 <= h,
            canvas_cells(*canvas) == apply_writes(cells0, polyline_writes(ds.take(k as int), color)),
            canvas_cols(*canvas) == canvas_cols(*old(canvas)),
            canvas_lines(*canvas) == canvas_lines(*old(canvas)),
            crate::paint::grid_in_range(canvas_cells(*canvas), w as int, h as int),
        decreases dots.len() - k,
    {
        proof {
            assert(ds.take(k + 1).drop_last() =~= ds.take(k as int));
            assert(ds.take(k + 1).last() == ds[k as int]);
            assert(ds.take(k + 1)[k - 1] == ds[k - 1]);
        }
        let ghost pre = canvas_cells(*canvas);
        let a = dots[k - 1];
        let b = dots[k];
        let okseg = canvas_line(canvas, a.0, a.1, b.0, b.1, color);
        proof {
            let sw = seg_writes(a.0 as int, a.1 as int, b.0 as int, b.1 as int, color);
            assert(polyline_writes(ds.take(k + 1), color) =~= polyline_writes(
                ds.take(k as int),
                color,
            ) + sw);
            lemma_apply_concat(cells0, polyline_writes(ds.take(k as int), color), sw);
            lemma_seg_in_range(a.0 as int, a.1 as int, b.0 as int, b.1 as int, color, w as int, h as int);
            crate::paint::lemma_apply_preserves_range(pre, sw, w as int, h as int);
        }
        k += 1;
    }
    proof {
        assert(ds.take(dots@.len() as int) =~= ds);
    }
}

/// A segment between two dots within the canvas stays within the canvas.
proof fn lemma_seg_in_range(x1: int, y1: int, x2: int, y2: int, color: Color, w: int, h: int)
    requires
        seg_ok(x1, y1, x2, y2),
        0 <= x1 <= w,
        0 <= x2 <= w,
        0 <= y1 <= h,
        0 <= y2 <= h,
    ensures
        crate::paint::writes_in_range(seg_writes(x1, y1, x2, y2, color), w, h),
{
    let sw = seg_writes(x1, y1, x2, y2, color);
    assert forall|i: int| 0 <= i < sw.len() implies 0 <= (#[trigger] sw[i]).x <= w && 0 <= sw[i].y
        <= h by {
        assert(sw[i].x == segment_dot_seq(x1, y1, x2, y2)[i].0);
        assert(sw[i].y == segment_dot_seq(x1, y1, x2, y2)[i].1);
    }
}

/// Draws the two step segments for each pair of consecutive dots.
fn draw_steps(canvas: &mut drawille::Canvas, w: u32, h: u32, dots: &Vec<(u32, u32)>, color: Color)
    requires
        w <= 65535,
        h <= 65535,
        crate::paint::grid_in_range(canvas_cells(*old(canvas)), w as int, h as int),
        forall|i: int| 0 <= i < dots@.len() ==> (#[trigger] dots@[i]).0 <= w && dots@[i].1 <= h,
    ensures
        canvas_cells(*final(canvas)) == apply_writes(
            canvas_cells(*old(canvas)),
            steps_writes(dots@.map_values(|d: (u32, u32)| (d.0 as int, d.1 as int)), color),
        ),
        canvas_cols(*final(canvas)) == canvas_cols(*old(canvas)),
        canvas_lines(*final(canvas)) == canvas_lines(*old(canvas)),
        crate::paint::grid_in_range(canvas_cells(*final(canvas)), w as int, h as int),
{
    let ghost ds = dots@.map_values(|d: (u32, u32)| (d.0 as int, d.1 as int));
    let ghost cells0 = canvas_cells(*canvas);
    if dots.len() < 2 {
        proof {
            assert(steps_writes(ds, color) =~= Seq::<DotWrite>::empty());
        }
        return ;
    }
    let mut k: usize = 1;
    while k < dots.len()
        invariant
            1 <= k <= dots.len(),
            dots.len() >= 2,
            w <= 65535,
            h <= 65535,
            ds == dots@.map_values(|d: (u32, u32)| (d.0 as int, d.1 as int)),
            forall|i: int| 0 <= i < dots@.len() ==> (#[trigger] dots@[i]).0 <= w && dots@[i].1 <= h,
            canvas_cells(*canvas) == apply_writes(cells0, steps_writes(ds.take(k as int), color)),
            canvas_cols(*canvas) == canvas_cols(*old(canvas)),
            canvas_lines(*canvas) == canvas_lines(*old(canvas)),
            crate::paint::grid_in_range(canvas_cells(*canvas), w as int, h as int),
        decreases dots.len() - k,
    {
        proof {
            assert(ds.take(k + 1).drop_last() =~= ds.take(k as int));
            assert(ds.take(k + 1).last() == ds[k as int]);
            assert(ds.take(k + 1)[k - 1] == ds[k - 1]);
        }
        let ghost pre = canvas_cells(*canvas);
        let a = dots[k - 1];
        let b = dots[k];
        let ok1 = canvas_line(canvas, a.0, b.1, b.0, b.1, color);
        let ghost mid = canvas_cells(*canvas);
        let ok2 = canvas_line(canvas, a.0, a.1, a.0, b.1, color);
        proof {
            let s1 = seg_writes(a.0 as int, b.1 as int, b.0 as int, b.1 as int, color);
            let s2 = seg_writes(a.0 as int, a.1 as int, a.0 as int, b.1 as int, color);
            lemma_apply_concat(pre, s1, s2);
            assert(step_pair_writes(ds[k - 1], ds[k as int], color) == s1 + s2);
            assert(steps_writes(ds.take(k + 1), color) =~= steps_writes(ds.take(k as int), color)
                + (s1 + s2));
            lemma_apply_concat(cells0, steps_writes(ds.take(k as int), color), s1 + s2);
            lemma_seg_in_range(a.0 as int, b.1 as int, b.0 as int, b.1 as int, color, w as int, h as int);
            crate::paint::lemma_apply_preserves_range(pre, s1, w as int, h as int);
            lemma_seg_in_range(a.0 as int, a.1 as int, a.0 as int, b.1 as int, color, w as int, h as int);
            crate::paint::lemma_apply_preserves_range(mid, s2, w as int, h as int);
        }
        k += 1;
    }
    proof {
        assert(ds.take(dots@.len() as int) =~= ds);
    }
}

/// Draws the step segments plus the two baseline drops for each pair.
fn draw_bars(canvas: &mut drawille::Canvas, w: u32, h: u32, dots: &Vec<(u32, u32)>, color: Color)
    requires
        w <= 65535,
        h <= 65535,
        crate::paint::grid_in_range(canvas_cells(*old(canvas)), w as int, h as int),
        forall|i: int| 0 <= i < dots@.len() ==> (#[trigger] dots@[i]).0 <= w && dots@[i].1 <= h,
    ensures
        canvas_cells(*final(canvas)) == apply_writes(
            canvas_cells(*old(canvas)),
            bars_writes(dots@.map_values(|d: (u32, u32)| (d.0 as int, d.1 as int)), h as int, color),
        ),
        canvas_cols(*final(canvas)) == canvas_cols(*old(canvas)),
        canvas_lines(*final(canvas)) == canvas_lines(*old(canvas)),
        crate::paint::grid_in_range(canvas_cells(*final(canvas)), w as int, h as int),
{
    let ghost ds = dots@.map_values(|d: (u32, u32)| (d.0 as int, d.1 as int));
    let ghost cells0 = canvas_cells(*canvas);
    if dots.len() < 2 {
        proof {
            assert(bars_writes(ds, h as int, color) =~= Seq::<DotWrite>::empty());
        }
        return ;
    }
    let mut k: usize = 1;
    while k < dots.len()
        invariant
            1 <= k <= dots.len(),
            dots.len() >= 2,
            w <= 65535,
            h <= 65535,
            ds == dots@.map_values(|d: (u32, u32)| (d.0 as int, d.1 as int)),
            forall|i: int| 0 <= i < dots@.len() ==> (#[trigger] dots@[i]).0 <= w && dots@[i].1 <= h,
            canvas_cells(*canvas) == apply_writes(cells0, bars_writes(ds.take(k as int), h as int, color)),
            canvas_cols(*canvas) == canvas_cols(*old(canvas)),
            canvas_lines(*canvas) == canvas_lines(*old(canvas)),
            crate::paint::grid_in_range(canvas_cells(*canvas), w as int, h as int),
        decreases dots.len() - k,
    {
        proof {
            assert(ds.take(k + 1).drop_last() =~= ds.take(k as int));
            assert(ds.take(k + 1).last() == ds[k as int]);
            assert(ds.take(k + 1)[k - 1] == ds[k - 1]);
        }
        let ghost pre = canvas_cells(*canvas);
        let a = dots[k - 1];
        let b = dots[k];
        let ok1 = canvas_line(canvas, a.0, b.1, b.0, b.1, color);
        let ghost m1 = canvas_cells(*canvas);
        let ok2 = canvas_line(canvas, a.0, a.1, a.0, b.1, color);
        let ghost m2 = canvas_cells(*canvas);
        let ok3 = canvas_line(canvas, a.0, h, a.0, a.1, color);
        let ghost m3 = canvas_cells(*canvas);
        let ok4 = canvas_line(canvas, b.0, h, b.0, b.1, color);
        proof {
            let s1 = seg_writes(a.0 as int, b.1 as int, b.0 as int, b.1 as int, color);
            let s2 = seg_writes(a.0 as int, a.1 as int, a.0 as int, b.1 as int, color);
            let s3 = seg_writes(a.0 as int, h as int, a.0 as int, a.1 as int, color);
            let s4 = seg_writes(b.0 as int, h as int, b.0 as int, b.1 as int, color);
            lemma_apply_concat(pre, s1, s2);
            lemma_apply_concat(pre, s1 + s2, s3);
            lemma_apply_concat(pre, (s1 + s2) + s3, s4);
            assert(apply_writes(pre, s1 + s2) == m2);
            assert(apply_writes(pre, (s1 + s2) + s3) == m3);
            assert(bar_pair_writes(ds[k - 1], ds[k as int], h as int, color) == ((s1 + s2) + s3)
                + s4);
            assert(bars_writes(ds.take(k + 1), h as int, color) =~= bars_writes(
                ds.take(k as int),
                h as int,
                color,
            ) + (((s1 + s2) + s3) + s4));
            lemma_apply_concat(cells0, bars_writes(ds.take(k as int), h as int, color), ((s1 + s2)
                + s3) + s4);
            lemma_seg_in_range(a.0 as int, b.1 as int, b.0 as int, b.1 as int, color, w as int, h as int);
            crate::paint::lemma_apply_preserves_range(pre, s1, w as int, h as int);
            lemma_seg_in_range(a.0 as int, a.1 as int, a.0 as int, b.1 as int, color, w as int, h as int);
            crate::paint::lemma_apply_preserves_range(m1, s2, w as int, h as int);
            lemma_seg_in_range(a.0 as int, h as int, a.0 as int, a.1 as int, color, w as int, h as int);
            crate::paint::lemma_apply_preserves_range(m2, s3, w as int, h as int);
            lemma_seg_in_range(b.0 as int, h as int, b.0 as int, b.1 as int, color, w as int, h as int);
            crate::paint::lemma_apply_preserves_range(m3, s4, w as int, h as int);
        }
        k += 1;
    }
    proof {
        assert(ds.take(dots@.len() as int) =~= ds);
    }
}

/// Draws a segment between adjacent sampled columns, skipping gaps.
fn draw_cont(
    canvas: &mut drawille::Canvas,
    w: u32,
    h: u32,
    dots: &Vec<Option<(u32, u32)>>,
    color: Color,
)
    requires
        w <= 65535,
        h <= 65535,
        crate::paint::grid_in_range(canvas_cells(*old(canvas)), w as int, h as int),
        forall|i: int|
            0 <= i < dots@.len() && dots@[i] is Some ==> ((#[trigger] dots@[i]).unwrap().0 <= w
                && dots@[i].unwrap().1 <= h),
    ensures
        canvas_cells(*final(canvas)) == apply_writes(
            canvas_cells(*old(canvas)),
            cont_writes(
                dots@.map_values(|d: Option<(u32, u32)>| opt_dot(d)),
                color,
            ),
        ),
        canvas_cols(*final(canvas)) == canvas_cols(*old(canvas)),
        canvas_lines(*final(canvas)) == canvas_lines(*old(canvas)),
        crate::paint::grid_in_range(canvas_cells(*final(canvas)), w as int, h as int),
        pair_segs_ok(dots@.map_values(|d: Option<(u32, u32)>| opt_dot(d))),
{
    let ghost ds = dots@.map_values(|d: Option<(u32, u32)>| opt_dot(d));
    let ghost cells0 = canvas_cells(*canvas);
    if dots.len() < 2 {
        proof {
            assert(cont_writes(ds, color) =~= Seq::<DotWrite>::empty());
        }
        return ;
    }
    let mut k: usize = 1;
    while k < dots.len()
        invariant
            1 <= k <= dots.len(),
            dots.len() >= 2,
            w <= 65535,
            h <= 65535,
            ds == dots@.map_values(|d: Option<(u32, u32)>| opt_dot(d)),
            forall|i: int|
                0 <= i < dots@.len() && dots@[i] is Some ==> ((#[trigger] dots@[i]).unwrap().0 <= w
                    && dots@[i].unwrap().1 <= h),
            canvas_cells(*canvas) == apply_writes(cells0, cont_writes(ds.take(k as int), color)),
            canvas_cols(*canvas) == canvas_cols(*old(canvas)),
            canvas_lines(*canvas) == canvas_lines(*old(canvas)),
            crate::paint::grid_in_range(canvas_cells(*canvas), w as int, h as int),
            forall|i: int|
                0 <= i < k - 1 && (#[trigger] ds[i]) is Some && ds[i + 1] is Some ==> seg_ok(
                    ds[i].unwrap().0,
                    ds[i].unwrap().1,
                    ds[i + 1].unwrap().0,
                    ds[i + 1].unwrap().1,
                ),
        decreases dots.len() - k,
    {
        proof {
            assert(ds.take(k + 1).drop_last() =~= ds.take(k as int));
            assert(ds.take(k + 1).last() == ds[k as int]);
            assert(ds.take(k + 1)[k - 1] == ds[k - 1]);
        }
        let ghost pre = canvas_cells(*canvas);
        let oa = dots[k - 1];
        let ob = dots[k];
        match (oa, ob) {
            (Some(a), Some(b)) => {
                let okseg = canvas_line(canvas, a.0, a.1, b.0, b.1, color);
                proof {
                    let sw = seg_writes(a.0 as int, a.1 as int, b.0 as int, b.1 as int, color);
                    assert(cont_writes(ds.take(k + 1), color) =~= cont_writes(
                        ds.take(k as int),
                        color,
                    ) + sw);
                    lemma_apply_concat(cells0, cont_writes(ds.take(k as int), color), sw);
                    lemma_seg_in_range(a.0 as int, a.1 as int, b.0 as int, b.1 as int, color, w as int, h as int);
                    crate::paint::lemma_apply_preserves_range(pre, sw, w as int, h as int);
                    assert(ds[k - 1].unwrap() == (a.0 as int, a.1 as int));
                    assert(ds[k as int].unwrap() == (b.0 as int, b.1 as int));
                }
            },
            _ => {
                proof {
                    assert(cont_writes(ds.take(k + 1), color) =~= cont_writes(
                        ds.take(k as int),
                        color,
                    ) + Seq::<DotWrite>::empty());
                    lemma_apply_concat(cells0, cont_writes(ds.take(k as int), color), Seq::<
                        DotWrite,
                    >::empty());
                }
            },
        }
        k += 1;
    }
    proof {
        assert(ds.take(dots@.len() as int) =~= ds);
    }
}

/// The view of an optional dot.
pub open spec fn opt_dot(d: Option<(u32, u32)>) -> Option<(int, int)> {
    match d {
        Some(p) => Some((p.0 as int, p.1 as int)),
        None => None,
    }
}

} // verus!

verus! {

/// The dashed vertical line at column `i`: every third dot.
pub open spec fn vline_writes(i: int, j: int) -> Seq<DotWrite>
    decreases j + 1,
{
    if j < 0 {
        Seq::empty()
    } else {
        vline_writes(i, j - 1) + (if j % 3 == 0 {
            seq![DotWrite { x: i, y: j, colored: false, color: Color::White }]
        } else {
            Seq::empty()
        })
    }
}

/// The dashed horizontal line at dot row `row`: every third dot.
pub open spec fn hline_writes(row: int, k: int) -> Seq<DotWrite>
    decreases k + 1,
{
    if k < 0 {
        Seq::empty()
    } else {
        hline_writes(row, k - 1) + (if k % 3 == 0 {
            seq![DotWrite { x: k, y: row, colored: false, color: Color::White }]
        } else {
            Seq::empty()
        })
    }
}

/// The writes of the border decoration: the two vertical edges, the bottom
/// edge, then the top edge.
pub open spec fn borders_writes(v: ChartV) -> Seq<DotWrite> {
    vline_writes(0, v.height) + vline_writes(v.width, v.height) + hline_writes(v.height, v.width)
        + hline_writes(0, v.width)
}

/// The canvas column of domain value zero, by truncation.
pub open spec fn x_axis_col(v: ChartV) -> int {
    crate::frac::rat_floor(linear_map(xscale_of(frame_of(v)), rat_of_int(0)))
}

/// The canvas row offset (from the bottom) of range value zero, by
/// truncation; with a degenerate range it is the bottom row.
pub open spec fn y_axis_row(v: ChartV) -> int {
    if yscale_usable(frame_of(v)) {
        crate::frac::rat_floor(linear_map(yscale_of(frame_of(v)), rat_of_int(0)))
    } else {
        0
    }
}

/// The writes of the axis decoration: a dashed vertical line where the domain
/// crosses zero, then a dashed horizontal line where the range does.
pub open spec fn axis_writes(v: ChartV) -> Seq<DotWrite> {
    (if rat_le(v.xmin, rat_of_int(0)) && rat_le(rat_of_int(0), v.xmax) {
        vline_writes(x_axis_col(v), v.height)
    } else {
        Seq::empty()
    }) + (if v.ymin is Some && rat_le(v.ymin.unwrap(), rat_of_int(0)) && rat_le(
        rat_of_int(0),
        v.ymax.unwrap(),
    ) {
        hline_writes(v.height - y_axis_row(v), v.width)
    } else {
        Seq::empty()
    })
}

impl Chart {
    /// Draws a dashed vertical line at the given column; a column beyond the
    /// canvas draws nothing.
    fn vline(&mut self, i: u32)
        requires
            old(self).wf(),
        ensures
            final(self).wf(),
            final(self)@ == old(self)@,
            final(self).cells() == (if i <= old(self)@.width {
                apply_writes(old(self).cells(), vline_writes(i as int, old(self)@.height))
            } else {
                old(self).cells()
            }),
    {
        let ghost v = self@;
        let ghost cells0 = self.cells();
        if i <= self.width {
            let mut j: u32 = 0;
            while j <= self.height
                invariant
                    self@ == v,
                    view_wf(v),
                    i <= v.width,
                    j <= v.height + 1,
                    canvas_cols(self.canvas) == v.width / 2,
                    canvas_lines(self.canvas) == v.height / 4,
                    self.cells() == apply_writes(cells0, vline_writes(i as int, j as int - 1)),
                    crate::paint::grid_in_range(self.cells(), v.width, v.height),
                decreases v.height + 1 - j,
            {
                let ghost pre = self.cells();
                if j % 3 == 0 {
                    canvas_set(&mut self.canvas, i, j);
                    proof {
                        let wr = DotWrite { x: i as int, y: j as int, colored: false, color: Color::White };
                        assert(vline_writes(i as int, j as int) =~= vline_writes(i as int, j as int - 1)
                            + seq![wr]);
                        lemma_apply_concat(cells0, vline_writes(i as int, j as int - 1), seq![wr]);
                        crate::paint::lemma_apply_one(pre, wr);
                        assert(crate::paint::writes_in_range(seq![wr], v.width, v.height));
                        crate::paint::lemma_apply_preserves_range(pre, seq![wr], v.width, v.height);
                    }
                } else {
                    proof {
                        assert(vline_writes(i as int, j as int) =~= vline_writes(
                            i as int,
                            j as int - 1,
                        ));
                    }
                }
                j += 1;
            }
        } else {
            proof {
                assert(self.cells() == cells0);
            }
        }
    }

    /// Draws a dashed horizontal line at the given height offset from the
    /// bottom; an offset beyond the canvas draws nothing.
    fn hline(&mut self, j: u32)
        requires
            old(self).wf(),
        ensures
            final(self).wf(),
            final(self)@ == old(self)@,
            final(self).cells() == (if j <= old(self)@.height {
                apply_writes(
                    old(self).cells(),
                    hline_writes(old(self)@.height - j as int, old(self)@.width),
                )
            } else {
                old(self).cells()
            }),
    {
        let ghost v = self@;
        let ghost cells0 = self.cells();
        if j <= self.height {
            let row = self.height - j;
            let mut k: u32 = 0;
            while k <= self.width
                invariant
                    self@ == v,
                    view_wf(v),
                    j <= v.height,
                    row == v.height - j as int,
                    k <= v.width + 1,
                    canvas_cols(self.canvas) == v.width / 2,
                    canvas_lines(self.canvas) == v.height / 4,
                    self.cells() == apply_writes(cells0, hline_writes(row as int, k as int - 1)),
                    crate::paint::grid_in_range(self.cells(), v.width, v.height),
                decreases v.width + 1 - k,
            {
                let ghost pre = self.cells();
                if k % 3 == 0 {
                    canvas_set(&mut self.canvas, k, row);
                    proof {
                        let wr = DotWrite { x: k as int, y: row as int, colored: false, color: Color::White };
                        assert(hline_writes(row as int, k as int) =~= hline_writes(row as int, k as int - 1)
                            + seq![wr]);
                        lemma_apply_concat(cells0, hline_writes(row as int, k as int - 1), seq![wr]);
                        crate::paint::lemma_apply_one(pre, wr);
                        assert(crate::paint::writes_in_range(seq![wr], v.width, v.height));
                        crate::paint::lemma_apply_preserves_range(pre, seq![wr], v.width, v.height);
                    }
                } else {
                    proof {
                        assert(hline_writes(row as int, k as int) =~= hline_writes(
                            row as int,
                            k as int - 1,
                        ));
                    }
                }
                k += 1;
            }
        } else {
            proof {
                assert(self.cells() == cells0);
            }
        }
    }

    /// Draws the dashed bounding rectangle of the canvas.
    pub fn borders(&mut self)
        requires
            old(self).wf(),
        ensures
            final(self).wf(),
            final(self)@ == old(self)@,
            final(self).cells() == apply_writes(old(self).cells(), borders_writes(old(self)@)),
    {
        let ghost v = self@;
        let ghost cells0 = self.cells();
        let w = self.width;
        let h = self.height;
        self.vline(0);
        self.vline(w);
        self.hline(0);
        self.hline(h);
        proof {
            let a = vline_writes(0, v.height);
            let b = vline_writes(v.width, v.height);
            let c = hline_writes(v.height, v.width);
            let d = hline_writes(0, v.width);
            lemma_apply_concat(cells0, a, b);
            lemma_apply_concat(cells0, a + b, c);
            lemma_apply_concat(cells0, (a + b) + c, d);
            assert(borders_writes(v) == ((a + b) + c) + d);
        }
    }

    /// Draws the zero axes: a dashed vertical line where the domain crosses
    /// zero, and a dashed horizontal line where the computed range does.
    pub fn axis(&mut self)
        requires
            old(self).wf(),
        ensures
            final(self).wf(),
            final(self)@ == old(self)@,
            final(self).cells() == apply_writes(old(self).cells(), axis_writes(old(self)@)),
    {
        let ghost v = self@;
        let ghost cells0 = self.cells();
        let zero = Frac::from_int(0);
        if self.xmin.le(&zero) && zero.le(&self.xmax) {
            let xs = Scale::new(
                self.xmin,
                self.xmax,
                Frac::from_int(0),
                Frac::from_int(self.width as i128),
            );
            let c = xs.linear(&zero);
            let ci = c.floor_val();
            proof {
                crate::frac::lemma_round_bounds(c@, 0, v.width);
                assert(ci as int == x_axis_col(v));
            }
            self.vline(ci as u32);
        } else {
            proof {
                assert(axis_writes(v) =~= Seq::<DotWrite>::empty() + (if v.ymin is Some && rat_le(
                    v.ymin.unwrap(),
                    rat_of_int(0),
                ) && rat_le(rat_of_int(0), v.ymax.unwrap()) {
                    hline_writes(v.height - y_axis_row(v), v.width)
                } else {
                    Seq::empty()
                }));
            }
        }
        let ghost mid = self.cells();
        let do_h = match (&self.ymin, &self.ymax) {
            (Some(a), Some(b)) => a.le(&zero) && zero.le(b),
            _ => false,
        };
        if do_h {
            let a = match &self.ymin {
                Some(a) => *a,
                None => zero,
            };
            let b = match &self.ymax {
                Some(b) => *b,
                None => zero,
            };
            let rj: i128 = if a.lt(&b) {
                let ys = Scale::new(a, b, Frac::from_int(0), Frac::from_int(self.height as i128));
                let cy = ys.linear(&zero);
                proof {
                    crate::frac::lemma_round_bounds(cy@, 0, v.height);
                }
                cy.floor_val()
            } else {
                0
            };
            proof {
                assert(rj as int == y_axis_row(v));
            }
            self.hline(rj as u32);
        }
        proof {
            let first = if rat_le(v.xmin, rat_of_int(0)) && rat_le(rat_of_int(0), v.xmax) {
                vline_writes(x_axis_col(v), v.height)
            } else {
                Seq::<DotWrite>::empty()
            };
            let second = if v.ymin is Some && rat_le(v.ymin.unwrap(), rat_of_int(0)) && rat_le(
                rat_of_int(0),
                v.ymax.unwrap(),
            ) {
                hline_writes(v.height - y_axis_row(v), v.width)
            } else {
                Seq::<DotWrite>::empty()
            };
            assert(mid == apply_writes(cells0, first));
            lemma_apply_concat(cells0, first, second);
            assert(axis_writes(v) == first + second);
        }
    }

    /// Rasterizes every registered shape onto the canvas, in registration
    /// order: later shapes draw on top.
    pub fn figures(&mut self)
        requires
            old(self).wf(),
        ensures
            final(self).wf(),
            final(self)@ == old(self)@,
            final(self).cells() == apply_writes(
                old(self).cells(),
                shapes_writes(frame_of(old(self)@), old(self)@.shapes),
            ),
            forall|si: int|
                0 <= si < old(self)@.shapes.len() ==> shape_segs_ok(
                    frame_of(old(self)@),
                    (#[trigger] old(self)@.shapes[si]).0,
                ),
    {
        let ghost v = self@;
        let ghost fv = frame_of(v);
        let ghost cells0 = self.cells();
        let mut si: usize = 0;
        while si < self.shapes.len()
            invariant
                si <= v.shapes.len(),
                self@ == v,
                self.wf(),
                self.cells() == apply_writes(cells0, shapes_writes(fv, v.shapes.take(si as int))),
                fv == frame_of(v),
                forall|i: int|
                    0 <= i < si ==> shape_segs_ok(fv, (#[trigger] v.shapes[i]).0),
            decreases v.shapes.len() - si,
        {
            proof {
                assert(v.shapes.take(si + 1).drop_last() =~= v.shapes.take(si as int));
                assert(v.shapes.take(si + 1).last() == v.shapes[si as int]);
                assert(self.shapes@.map_values(|sc: (Shape, Color)| (sc.0@, sc.1))[si as int]
                    == v.shapes[si as int]);
            }
            let ghost pre = self.cells();
            let color = self.shapes[si].1;
            let w = self.width;
            let h = self.height;
            let xmin = self.xmin;
            let xmax = self.xmax;
            let ymin = self.ymin;
            let ymax = self.ymax;
            match &self.shapes[si].0 {
                Shape::Points(ps) => {
                    let dots = map_point_dots(w, h, xmin, xmax, ymin, ymax, ps);
                    draw_scatter(&mut self.canvas, w, h, &dots, color);
                },
                Shape::Lines(ps) => {
                    let dots = map_point_dots(w, h, xmin, xmax, ymin, ymax, ps);
                    draw_polyline(&mut self.canvas, w, h, &dots, color);
                },
                Shape::Steps(ps) => {
                    let dots = map_point_dots(w, h, xmin, xmax, ymin, ymax, ps);
                    draw_steps(&mut self.canvas, w, h, &dots, color);
                },
                Shape::Bars(ps) => {
                    let dots = map_point_dots(w, h, xmin, xmax, ymin, ymax, ps);
                    draw_bars(&mut self.canvas, w, h, &dots, color);
                },
                Shape::Continuous(samples) => {
                    proof {
                        let sv = samples@.map_values(|o: Option<Frac>| opt_rat(o));
                        assert(shape_wf(v.width, v.shapes[si as int].0));
                        assert forall|k: int|
                            0 <= k < samples@.len() && samples@[k] is Some implies (#[trigger] samples@[k]).unwrap().small() by {
                            assert(sv[k] == opt_rat(samples@[k]));
                        }
                    }
                    let dots = map_cont_dots(w, h, xmin, xmax, ymin, ymax, samples);
                    draw_cont(&mut self.canvas, w, h, &dots, color);
                },
            }
            proof {
                let sw = shape_writes(fv, v.shapes[si as int].0, color);
                assert(self.cells() == apply_writes(pre, sw));
                assert(shapes_writes(fv, v.shapes.take(si + 1)) =~= shapes_writes(
                    fv,
                    v.shapes.take(si as int),
                ) + sw);
                lemma_apply_concat(cells0, shapes_writes(fv, v.shapes.take(si as int)), sw);
            }
            si += 1;
        }
        proof {
            assert(v.shapes.take(v.shapes.len() as int) =~= v.shapes);
        }
    }
}

/// Maps each sampled column into its canvas dot.
fn map_cont_dots(
    width: u32,
    height: u32,
    xmin: Frac,
    xmax: Frac,
    ymin: Option<Frac>,
    ymax: Option<Frac>,
    samples: &Vec<Option<Frac>>,
) -> (r: Vec<Option<(u32, u32)>>)
    requires
        32 <= width <= SMALL_BOUND as u32,
        32 <= height <= SMALL_BOUND as u32,
        (ymin is Some <==> ymax is Some),
        (ymin is Some ==> ymin.unwrap().small() && ymax.unwrap().small() && rat_le(
            ymin.unwrap()@,
            ymax.unwrap()@,
        )),
        samples@.len() <= width,
        forall|i: int|
            0 <= i < samples@.len() && samples@[i] is Some ==> (#[trigger] samples@[i]).unwrap().small(),
    ensures
        r@.map_values(|d: Option<(u32, u32)>| opt_dot(d)) == cont_dots(
            (FrameV {
                width: width as int,
                height: height as int,
                xmin: xmin@,
                xmax: xmax@,
                ymin: opt_view(ymin),
                ymax: opt_view(ymax),
            }),
            samples@.map_values(|o: Option<Frac>| opt_rat(o)),
        ),
        forall|i: int|
            0 <= i < r@.len() && r@[i] is Some ==> ((#[trigger] r@[i]).unwrap().0 <= width
                && r@[i].unwrap().1 <= height),
{
    let ghost fv = FrameV {
        width: width as int,
        height: height as int,
        xmin: xmin@,
        xmax: xmax@,
        ymin: opt_view(ymin),
        ymax: opt_view(ymax),
    };
    let ghost sv = samples@.map_values(|o: Option<Frac>| opt_rat(o));
    let ys: Option<Scale> = match (&ymin, &ymax) {
        (Some(a), Some(b)) => {
            if a.lt(b) {
                Some(Scale::new(*a, *b, Frac::from_int(0), Frac::from_int(height as i128)))
            } else {
                None
            }
        },
        _ => None,
    };
    proof {
        assert(ys is Some <==> yscale_usable(fv));
        if ys is Some {
            assert(ys.unwrap()@ == yscale_of(fv));
        }
    }
    let mut r: Vec<Option<(u32, u32)>> = Vec::new();
    let mut i: usize = 0;
    while i < samples.len()
        invariant
            i <= samples.len(),
            samples@.len() <= width,
            sv == samples@.map_values(|o: Option<Frac>| opt_rat(o)),
            forall|k: int|
                0 <= k < samples@.len() && samples@[k] is Some ==> (#[trigger] samples@[k]).unwrap().small(),
            (ys is Some <==> yscale_usable(fv)),
            (ys is Some ==> ys.unwrap()@ == yscale_of(fv) && ys.unwrap().wf()),
            fv.height == height as int,
            32 <= height,
            r@.map_values(|d: Option<(u32, u32)>| opt_dot(d)) == cont_dots(fv, sv.take(i as int)),
            forall|k: int|
                0 <= k < r@.len() && r@[k] is Some ==> ((#[trigger] r@[k]).unwrap().0 <= width
                    && r@[k].unwrap().1 <= height),
        decreases samples.len() - i,
    {
        proof {
            assert(sv.take(i + 1).drop_last() =~= sv.take(i as int));
            assert(sv.take(i + 1).last() == sv[i as int]);
            assert(opt_rat(samples@[i as int]) == sv[i as int]);
        }
        let d: Option<(u32, u32)> = match samples[i] {
            Some(f) => {
                let yj: i128 = match &ys {
                    Some(s) => {
                        let fy = s.linear(&f);
                        proof {
                            crate::frac::lemma_round_bounds(fy@, 0, height as int);
                        }
                        fy.round_val()
                    },
                    None => 0,
                };
                Some((i as u32, height - (yj as u32)))
            },
            None => None,
        };
        r.push(d);
        proof {
            assert(r@.map_values(|d: Option<(u32, u32)>| opt_dot(d)) =~= r@.drop_last().map_values(
                |d: Option<(u32, u32)>| opt_dot(d),
            ).push(opt_dot(d)));
            assert(sv.take(i + 1).len() - 1 == i as int);
        }
        i += 1;
    }
    proof {
        assert(sv.take(samples@.len() as int) =~= sv);
    }
    r
}

} // verus!

verus! {

/// The legend suffix: a short swatch of the plotted line.
pub open spec fn legend_suffix() -> Seq<char> {
    ": ⠉⠉⠉"@
}

/// Every write one full render performs: all shapes, then the axes.
pub open spec fn render_writes(v: ChartV) -> Seq<DotWrite> {
    shapes_writes(frame_of(v), v.shapes) + axis_writes(v)
}

impl Chart {
    /// Renders all shapes and the axes, serializes the canvas, decorates the
    /// first and last rows with the range bounds and appends the domain
    /// labels: the full text of the chart. The text is the decoration
    /// ([`crate::text::decorate_rows`]) of the serialized canvas rows.
    /// A shape must have been registered, so that the range bounds exist.
    pub fn display(&mut self) -> (r: String)
        requires
            old(self).wf(),
            old(self)@.ymin is Some,
        ensures
            final(self).wf(),
            final(self)@ == old(self)@,
            final(self).cells() == apply_writes(old(self).cells(), render_writes(old(self)@)),
            exists|rows: Seq<Seq<char>>|
                rows.len() == old(self)@.height / 4 + 1 && (forall|i: int|
                    0 <= i < rows.len() ==> !(#[trigger] rows[i]).contains('\n')) && r@
                    == crate::text::display_text(
                    rows,
                    old(self)@.ymin.unwrap(),
                    old(self)@.ymax.unwrap(),
                    old(self)@.xmin,
                    old(self)@.xmax,
                    old(self)@.width,
                ),
    {
        let ghost v = self@;
        let ghost cells0 = self.cells();
        self.figures();
        self.axis();
        proof {
            lemma_apply_concat(cells0, shapes_writes(frame_of(v), v.shapes), axis_writes(v));
        }
        let rows = canvas_row_strings(&self.canvas);
        let ymin = match &self.ymin {
            Some(f) => *f,
            None => Frac::from_int(0),
        };
        let ymax = match &self.ymax {
            Some(f) => *f,
            None => Frac::from_int(0),
        };
        let r = crate::text::decorate_rows(&rows, &ymin, &ymax, &self.xmin, &self.xmax, self.width);
        proof {
            let rws = rows@.map_values(|s: String| s@);
            assert(rws.len() == v.height / 4 + 1);
            assert forall|i: int| 0 <= i < rws.len() implies !(#[trigger] rws[i]).contains('\n') by {
                assert(rws[i] == rows@[i]@);
            }
            assert(r@ == crate::text::display_text(rws, v.ymin.unwrap(), v.ymax.unwrap(), v.xmin, v.xmax, v.width));
        }
        r
    }

    /// The raw serialized canvas text, rows joined by newlines, without any
    /// decoration.
    pub fn frame(&self) -> (r: String)
        requires
            self.wf(),
        ensures
            exists|rows: Seq<Seq<char>>|
                rows.len() == self@.height / 4 + 1 && (forall|i: int|
                    0 <= i < rows.len() ==> !(#[trigger] rows[i]).contains('\n')) && r@
                    == crate::text::joined_lines(rows, rows.len() as int),
    {
        let rows = canvas_row_strings(&self.canvas);
        let r = crate::text::join_rows(&rows);
        proof {
            let rws = rows@.map_values(|s: String| s@);
            assert(rws.len() == self@.height / 4 + 1);
            assert forall|i: int| 0 <= i < rws.len() implies !(#[trigger] rws[i]).contains('\n') by {
                assert(rws[i] == rows@[i]@);
            }
            assert(r@ == crate::text::joined_lines(rws, rws.len() as int));
        }
        r
    }

    /// One legend entry per labelled shape: the label, a swatch suffix, and
    /// the shape's color for the caller to style the line with.
    pub fn legends(&self) -> (r: Vec<(String, Color)>)
        ensures
            r@.len() == self@.labels.len(),
            forall|i: int|
                0 <= i < r@.len() ==> (#[trigger] r@[i]).0@ == self@.labels[i].0 + legend_suffix()
                    && r@[i].1 == self@.labels[i].1,
    {
        let ghost lv = self@.labels;
        let mut r: Vec<(String, Color)> = Vec::new();
        let mut i: usize = 0;
        while i < self.labels.len()
            invariant
                i <= self.labels.len(),
                lv == self@.labels,
                lv.len() == self.labels@.len(),
                r@.len() == i,
                forall|k: int|
                    0 <= k < i ==> (#[trigger] r@[k]).0@ == lv[k].0 + legend_suffix() && r@[k].1
                        == lv[k].1,
            decreases self.labels.len() - i,
        {
            let mut s = String::new();
            s.append(self.labels[i].0.as_str());
            s.append(": ⠉⠉⠉");
            proof {
                assert(self.labels@[i as int].0@ == lv[i as int].0);
            }
            r.push((s, self.labels[i].1));
            i += 1;
        }
        r
    }

    /// The chart with borders drawn, rendered to text. Style the entries of
    /// [`Chart::legends`] to complete the nice output.
    pub fn nice(&mut self) -> (r: String)
        requires
            old(self).wf(),
            old(self)@.ymin is Some,
        ensures
            final(self).wf(),
            final(self)@ == old(self)@,
            final(self).cells() == apply_writes(
                apply_writes(old(self).cells(), borders_writes(old(self)@)),
                render_writes(old(self)@),
            ),
            exists|rows: Seq<Seq<char>>|
                rows.len() == old(self)@.height / 4 + 1 && (forall|i: int|
                    0 <= i < rows.len() ==> !(#[trigger] rows[i]).contains('\n')) && r@
                    == crate::text::display_text(
                    rows,
                    old(self)@.ymin.unwrap(),
                    old(self)@.ymax.unwrap(),
                    old(self)@.xmin,
                    old(self)@.xmax,
                    old(self)@.width,
                ),
    {
        self.borders();
        self.display()
    }
}

} // verus!
