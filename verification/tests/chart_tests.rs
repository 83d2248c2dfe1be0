use pointplots::{Chart, Color, Frac, Point, Shape};
use pointplots::utils::{histogram, pairs_into_points};
use pointplots::Scale;

fn fr(n: i128, d: i128) -> Frac {
    Frac::new(n, d)
}

fn fi(i: i128) -> Frac {
    Frac::from_int(i)
}

#[test]
fn scale_linear_maps_domain_example() {
    // domain [0,10] onto range [-1,1]: 1.0 lands on -0.8
    let s = Scale::new(fi(0), fi(10), fi(-1), fi(1));
    let r = s.linear(&fi(1));
    assert!(r.eq_value(&fr(-4, 5)));
}

#[test]
fn scale_inv_linear_maps_range_example() {
    // range value 0.1 comes back from domain value 5.5
    let s = Scale::new(fi(0), fi(10), fi(-1), fi(1));
    let r = s.inv_linear(&fr(1, 10));
    assert!(r.eq_value(&fr(11, 2)));
}

#[test]
fn scale_clamps_at_edges() {
    let s = Scale::new(fi(0), fi(10), fi(-1), fi(1));
    assert!(s.linear(&fi(-5)).eq_value(&fi(-1)));
    assert!(s.linear(&fi(25)).eq_value(&fi(1)));
    assert!(s.inv_linear(&fi(-7)).eq_value(&fi(0)));
    assert!(s.inv_linear(&fi(7)).eq_value(&fi(10)));
}

#[test]
fn scale_round_trip_inside() {
    let s = Scale::new(fi(-3), fi(7), fi(0), fi(120));
    let x = fr(5, 2);
    // the checked variant hands the image back once it fits the pipeline
    // bounds again, so the chain through inv_linear is fully covered
    let mid = s.linear_small(&x).expect("image fits the small bounds");
    let back = s.inv_linear(&mid);
    assert!(back.eq_value(&x));
}

#[test]
fn registration_extends_range_monotonically() {
    let mut c = Chart::new(120, 60, fi(0), fi(11));
    let pts = vec![
        Point { x: fi(0), y: fi(-8) },
        Point { x: fi(1), y: fi(-8) },
        Point { x: fi(2), y: fi(-3) },
    ];
    c.lineplot(Shape::Lines(pts));
    assert!(c.ymin_bound().unwrap().eq_value(&fi(-8)));
    assert!(c.ymax_bound().unwrap().eq_value(&fi(-3)));
    // a second shape can only widen the bounds
    c.lineplot(Shape::Points(vec![Point { x: fi(3), y: fi(-5) }]));
    assert!(c.ymin_bound().unwrap().eq_value(&fi(-8)));
    assert!(c.ymax_bound().unwrap().eq_value(&fi(-3)));
    c.lineplot(Shape::Points(vec![Point { x: fi(4), y: fi(9) }]));
    assert!(c.ymax_bound().unwrap().eq_value(&fi(9)));
}

#[test]
fn end_to_end_display_shows_bounds() {
    let mut c = Chart::new(120, 60, fi(0), fi(11));
    let pts = vec![
        Point { x: fi(0), y: fi(-8) },
        Point { x: fi(1), y: fi(-8) },
        Point { x: fi(2), y: fi(-3) },
    ];
    c.lineplot(Shape::Lines(pts));
    assert!(c.ymin_bound().unwrap().eq_value(&fi(-8)));
    assert!(c.ymax_bound().unwrap().eq_value(&fi(-3)));
    let text = c.display();
    let lines: Vec<&str> = text.split('\n').collect();
    // rows, then the domain-label line
    assert!(lines[0].contains("-3.0"));
    assert!(lines[lines.len() - 2].contains("-8.0"));
    let label_line = lines[lines.len() - 1];
    assert!(label_line.starts_with("0.0"));
    assert!(label_line.ends_with("11.0"));
}

#[test]
fn display_is_idempotent() {
    let mut c = Chart::new(120, 60, fi(0), fi(11));
    let pts = vec![
        Point { x: fi(0), y: fi(-8) },
        Point { x: fi(1), y: fi(-8) },
        Point { x: fi(2), y: fi(-3) },
    ];
    c.lineplot_with_tags(Shape::Bars(pts), Some(String::from("bars")), Color::Red);
    let first = c.display();
    let second = c.display();
    assert_eq!(first, second);
}

#[test]
fn out_of_domain_points_do_not_influence_bounds() {
    let mut c = Chart::new(120, 60, fi(0), fi(10));
    // every x outside [0,10]: the contribution is empty and pulls the
    // bounds to zero, the documented quirk of the auto-ranger
    c.lineplot(Shape::Points(vec![Point { x: fi(20), y: fi(77) }]));
    assert!(c.ymin_bound().unwrap().eq_value(&fi(0)));
    assert!(c.ymax_bound().unwrap().eq_value(&fi(0)));
    // an in-domain point registers; the out-of-domain y 77 never shows
    c.lineplot(Shape::Points(vec![
        Point { x: fi(5), y: fi(3) },
        Point { x: fi(11), y: fi(77) },
    ]));
    assert!(c.ymax_bound().unwrap().eq_value(&fi(3)));
}

#[test]
fn continuous_gaps_are_excluded_from_range() {
    let mut c = Chart::new(120, 60, fi(-10), fi(10));
    let mut samples: Vec<Option<Frac>> = Vec::new();
    for i in 0..120 {
        if i % 2 == 0 {
            samples.push(Some(fi(4)));
        } else {
            samples.push(None);
        }
    }
    c.lineplot(Shape::Continuous(samples));
    assert!(c.ymin_bound().unwrap().eq_value(&fi(4)));
    assert!(c.ymax_bound().unwrap().eq_value(&fi(4)));
}

#[test]
fn histogram_buckets_match_example() {
    let data = vec![(fi(0), fi(0)), (fi(9), fi(9)), (fi(10), fi(10))];
    let r = histogram(&data, fi(0), fi(10), 2);
    assert_eq!(r.len(), 2);
    assert!(r[0].x.eq_value(&fi(0)));
    assert!(r[0].y.eq_value(&fi(1)));
    assert!(r[1].x.eq_value(&fi(5)));
    assert!(r[1].y.eq_value(&fi(1)));
}

#[test]
fn histogram_zero_bins_is_empty() {
    let data = vec![(fi(0), fi(1))];
    let r = histogram(&data, fi(0), fi(10), 0);
    assert_eq!(r.len(), 0);
}

#[test]
fn histogram_skips_out_of_bounds_values() {
    let data = vec![
        (fi(0), fi(-1)),
        (fi(1), fi(2)),
        (fi(2), fi(11)),
        (fi(3), fi(7)),
    ];
    let r = histogram(&data, fi(0), fi(10), 5);
    assert_eq!(r.len(), 5);
    // counts: bucket 1 holds y=2, bucket 3 holds y=7
    assert!(r[0].y.eq_value(&fi(0)));
    assert!(r[1].y.eq_value(&fi(1)));
    assert!(r[2].y.eq_value(&fi(0)));
    assert!(r[3].y.eq_value(&fi(1)));
    assert!(r[4].y.eq_value(&fi(0)));
}

#[test]
fn pairs_become_points() {
    let data = vec![(fi(1), fi(2)), (fr(3, 2), fi(-4))];
    let pts = pairs_into_points(&data);
    assert_eq!(pts.len(), 2);
    assert!(pts[0].x.eq_value(&fi(1)));
    assert!(pts[1].x.eq_value(&fr(3, 2)));
    assert!(pts[1].y.eq_value(&fi(-4)));
}

#[test]
fn legends_carry_labels_and_colors() {
    let mut c = Chart::new(120, 60, fi(0), fi(10));
    c.lineplot_with_tags(
        Shape::Points(vec![Point { x: fi(1), y: fi(1) }]),
        Some(String::from("first")),
        Color::Green,
    );
    c.lineplot_with_tags(
        Shape::Points(vec![Point { x: fi(2), y: fi(2) }]),
        None,
        Color::Blue,
    );
    let ls = c.legends();
    assert_eq!(ls.len(), 1);
    assert!(ls[0].0.starts_with("first: "));
    assert_eq!(ls[0].1, Color::Green);
}

#[test]
fn steps_and_bars_render_distinct_outlines() {
    let pts = vec![
        Point { x: fi(1), y: fi(2) },
        Point { x: fi(7), y: fi(8) },
    ];
    let mut steps = Chart::new(120, 60, fi(0), fi(10));
    steps.lineplot(Shape::Steps(pts.clone()));
    let steps_text = steps.display();

    let mut bars = Chart::new(120, 60, fi(0), fi(10));
    bars.lineplot(Shape::Bars(pts.clone()));
    let bars_text = bars.display();

    let mut lines = Chart::new(120, 60, fi(0), fi(10));
    lines.lineplot(Shape::Lines(pts));
    let lines_text = lines.display();

    // the bar outline adds baseline drops the step lacks, and neither is the
    // straight diagonal of the line plot
    assert_ne!(steps_text, bars_text);
    assert_ne!(steps_text, lines_text);
}

#[test]
fn nice_draws_borders_and_stays_stable() {
    let mut c = Chart::new(120, 60, fi(-10), fi(10));
    c.lineplot(Shape::Points(vec![Point { x: fi(0), y: fi(0) }]));
    let a = c.nice();
    // borders are drawn once; a plain display afterwards keeps them
    let b = c.display();
    assert_eq!(a, b);
    assert!(!a.is_empty());
}

#[test]
fn default_chart_covers_standard_viewport() {
    let mut c = Chart::default_chart();
    c.lineplot(Shape::Points(vec![Point { x: fi(0), y: fi(1) }]));
    let text = c.display();
    let lines: Vec<&str> = text.split('\n').collect();
    // 60 dot rows serialize to 16 braille rows, then the label line
    assert_eq!(lines.len(), 17);
    assert!(lines[16].starts_with("-10.0"));
    assert!(lines[16].ends_with("10.0"));
}

#[test]
fn frame_is_undecorated() {
    let mut c = Chart::new(120, 60, fi(0), fi(10));
    c.lineplot(Shape::Points(vec![Point { x: fi(5), y: fi(5) }]));
    c.figures();
    let f = c.frame();
    assert!(!f.contains("5.0"));
    assert_eq!(f.split('\n').count(), 16);
}

#[test]
fn labels_round_ties_to_even() {
    // one decimal place, ties to the even tenths digit
    let (quarter, _) = pointplots::text::fmt_f1(&fr(1, 4));
    assert_eq!(quarter, "0.2");
    let (seven_twentieths, _) = pointplots::text::fmt_f1(&fr(7, 20));
    assert_eq!(seven_twentieths, "0.4");
    let (neg_quarter, _) = pointplots::text::fmt_f1(&fr(-1, 4));
    assert_eq!(neg_quarter, "-0.2");
    let (plain, _) = pointplots::text::fmt_f1(&fr(-8, 1));
    assert_eq!(plain, "-8.0");
}

#[test]
fn linear_small_reports_oversized_representations() {
    // coprime denominators push the exact image past the pipeline bounds
    let s = Scale::new(fr(1, 263), fi(10), fi(0), fi(100));
    assert!(s.linear_small(&fr(1, 251)).is_none());
    // a well-behaved image comes back and keeps its exact value
    let t = Scale::new(fi(0), fi(10), fi(-1), fi(1));
    let img = t.linear_small(&fi(1)).expect("image fits the small bounds");
    assert!(img.eq_value(&fr(-4, 5)));
}
