use humio::analysis::{filter_active_movement, points_in_window};
use humio::target_area::{is_point_in_polygon, polygon_centroid};
use humio::{
    gaussian_delay_ms, generate_wind_mouse_path, sample_gaussian_clamped, step_wait_ms, DelayMs,
    GlidePoint, PathStep, Point,
    TargetArea,
};
use rand::RngExt;

/// A rounded draw from the normal distribution (Box-Muller).
fn normal(mean: i32, std_dev: i32) -> i32 {
    let mut rng = rand::rng();
    let u1: f64 = rng.random_range(0.0001..=1.0);
    let u2: f64 = rng.random_range(0.0..=1.0);
    let z = (-2.0 * u1.ln()).sqrt() * (2.0 * std::f64::consts::PI * u2).cos();
    (f64::from(mean) + z * f64::from(std_dev)).round() as i32
}

/// The rounded offset of the point at distance `r` toward `(dx, dy)`.
fn edge(dx: i64, dy: i64, r: i32) -> (i32, i32) {
    let angle = (dy as f64).atan2(dx as f64);
    ((f64::from(r) * angle.cos()).round() as i32, (f64::from(r) * angle.sin()).round() as i32)
}

#[test]
fn test_target_area_rect_bounds() {
    let rect = TargetArea::Rect {
        top_left: Point::new(10, 10),
        bottom_right: Point::new(50, 50),
        target: None,
        std_dev_x: None,
        std_dev_y: None,
    };
    for _ in 0..100 {
        let pt = rect.generate_click_point(&normal, &edge);
        assert!(pt.x >= 10 && pt.x <= 50);
        assert!(pt.y >= 10 && pt.y <= 50);
    }
}

#[test]
fn rect_draws_around_the_centre_with_a_sixth_of_the_size() {
    let rect = TargetArea::Rect {
        top_left: Point::new(-7, 100),
        bottom_right: Point::new(0, 160),
        target: None,
        std_dev_x: None,
        std_dev_y: None,
    };
    // A draw that returns its mean shows the anchor; one that returns the
    // standard deviation shows the spread.
    let p = rect.generate_click_point(&|m, _s| m, &edge);
    assert_eq!(p, Point::new(i32::midpoint(-7, 0), i32::midpoint(100, 160)));
    assert_eq!(p, Point::new(-3, 130));
    let wide = TargetArea::Rect {
        top_left: Point::new(0, 0),
        bottom_right: Point::new(60, 30),
        target: None,
        std_dev_x: None,
        std_dev_y: None,
    };
    let sd = wide.generate_click_point(&|_m, s| s, &edge);
    assert_eq!(sd, Point::new(10, 5));
    // Draws outside the rectangle are brought back to its edge.
    let far = rect.generate_click_point(&|_m, _s| 1_000_000, &edge);
    assert_eq!(far, Point::new(0, 160));
}

#[test]
fn rect_target_is_clamped_inside_and_thin_rects_use_their_only_value() {
    let rect = TargetArea::Rect {
        top_left: Point::new(0, 5),
        bottom_right: Point::new(20, 5),
        target: Some(Point::new(99, -99)),
        std_dev_x: Some(4),
        std_dev_y: None,
    };
    let p = rect.generate_click_point(&|m, _s| m, &edge);
    assert_eq!(p, Point::new(20, 5));
    let q = rect.generate_click_point(&|_m, s| s, &edge);
    assert_eq!(q, Point::new(4, 5));
}

#[test]
fn point_area_is_exact() {
    let area = TargetArea::Point(Point::new(-4, 9));
    assert_eq!(area.generate_click_point(&normal, &edge), Point::new(-4, 9));
}

#[test]
fn circle_points_lie_inside_the_disc() {
    let circle = TargetArea::Circle { center: Point::new(100, 100), radius: 10, target: None, std_dev: None };
    for _ in 0..100 {
        let p = circle.generate_click_point(&normal, &edge);
        let dx = p.x - 100;
        let dy = p.y - 100;
        assert!(dx * dx + dy * dy <= 100);
    }
    // Every draw far outside: the fallback is the anchor, here the centre.
    let p = circle.generate_click_point(&|_m, _s| 5_000, &edge);
    assert_eq!(p, Point::new(100, 100));
    // A target outside the circle is pulled onto its edge.
    let aimed = TargetArea::Circle {
        center: Point::new(0, 0),
        radius: 10,
        target: Some(Point::new(50, 0)),
        std_dev: Some(2),
    };
    assert_eq!(aimed.generate_click_point(&|m, _s| m, &edge), Point::new(10, 0));
    assert_eq!(aimed.generate_click_point(&|_m, _s| 5_000, &edge), Point::new(10, 0));
    // An edge point that rounding puts outside the disc is not the fallback:
    // the centre is.
    let unit = TargetArea::Circle {
        center: Point::new(0, 0),
        radius: 1,
        target: Some(Point::new(5, 5)),
        std_dev: Some(0),
    };
    assert_eq!(unit.generate_click_point(&|m, _s| m, &|_dx, _dy, _r| (1, 1)), Point::new(0, 0));
    assert_eq!(unit.generate_click_point(&|m, _s| m, &edge), Point::new(0, 0));
}

#[test]
fn polygon_centroid_and_inside_test() {
    let square = vec![Point::new(0, 0), Point::new(10, 0), Point::new(10, 10), Point::new(0, 10)];
    assert_eq!(polygon_centroid(&square), (5, 5));
    assert_eq!(polygon_centroid(&[Point::new(-3, 1), Point::new(0, 0)]), (-1, 0));
    assert_eq!(polygon_centroid(&[]), (0, 0));
    assert!(is_point_in_polygon(5, 5, &square));
    assert!(!is_point_in_polygon(15, 5, &square));
    assert!(!is_point_in_polygon(5, -1, &square));
    assert!(!is_point_in_polygon(1, 1, &square[..2]));
    let triangle = vec![Point::new(0, 0), Point::new(10, 0), Point::new(0, 10)];
    assert!(is_point_in_polygon(2, 2, &triangle));
    assert!(!is_point_in_polygon(8, 8, &triangle));
}

#[test]
fn polygon_points_lie_inside_or_fall_back() {
    let triangle = TargetArea::Polygon {
        vertices: vec![Point::new(0, 0), Point::new(30, 0), Point::new(0, 30)],
        target: None,
        std_dev_x: None,
        std_dev_y: None,
    };
    for _ in 0..100 {
        let p = triangle.generate_click_point(&normal, &edge);
        assert!(is_point_in_polygon(p.x, p.y, &[Point::new(0, 0), Point::new(30, 0), Point::new(0, 30)]));
    }
    // Draws always on the far corner of the bounding box, outside: the
    // fallback is the anchor (the vertex average), which lies inside.
    let p = triangle.generate_click_point(&|_m, _s| 1_000, &edge);
    assert_eq!(p, Point::new(10, 10));
    let empty = TargetArea::Polygon { vertices: vec![], target: None, std_dev_x: None, std_dev_y: None };
    assert_eq!(empty.generate_click_point(&normal, &edge), Point::new(0, 0));
    let line = TargetArea::Polygon {
        vertices: vec![Point::new(7, 7), Point::new(9, 9)],
        target: None,
        std_dev_x: None,
        std_dev_y: None,
    };
    assert_eq!(line.generate_click_point(&normal, &edge), Point::new(7, 7));
}

#[test]
fn clamped_sample_stays_in_bounds() {
    for _ in 0..200 {
        let v = sample_gaussian_clamped(50, 40, 30, 70, &normal);
        assert!((30..=70).contains(&v));
    }
    assert_eq!(sample_gaussian_clamped(50, 40, 9, 9, &|_m, _s| 1000), 9);
    assert_eq!(sample_gaussian_clamped(50, 40, 10, 2, &|_m, _s| 1000), 10);
    assert_eq!(sample_gaussian_clamped(50, 40, 0, 100, &|_m, _s| -5), 0);
    assert_eq!(sample_gaussian_clamped(50, 40, 0, 100, &|m, _s| m), 50);
}

#[test]
fn gaussian_delay_is_kept_between_a_third_and_three_times_the_mean() {
    for _ in 0..200 {
        let ms = gaussian_delay_ms(DelayMs(80), 20, &normal);
        assert!((26..=240).contains(&ms));
    }
    assert_eq!(gaussian_delay_ms(DelayMs(80), 20, &|_m, _s| -1000), 26);
    assert_eq!(gaussian_delay_ms(DelayMs(80), 20, &|_m, _s| 1000), 240);
    assert_eq!(gaussian_delay_ms(DelayMs(0), 20, &|_m, _s| 1000), 0);
}

#[test]
fn delay_converts_to_a_duration() {
    assert_eq!(DelayMs(250).to_duration(), std::time::Duration::from_millis(250));
}

fn straight_glide(start: Point, target: Point) -> Vec<GlidePoint> {
    (1..=4)
        .map(|i| GlidePoint {
            point: Point::new(start.x + (target.x - start.x) * i / 5, start.y + (target.y - start.y) * i / 5),
            near_target: i == 4,
        })
        .collect()
}

#[test]
fn test_wind_mouse_path_generation() {
    let start = Point::new(0, 0);
    let target = Point::new(100, 100);
    let path = generate_wind_mouse_path(start, target, &straight_glide);
    assert!(!path.is_empty());
    assert_eq!(path.last().unwrap().point, target);
    assert_eq!(path[0], PathStep { point: start, delay: DelayMs(0) });
    for step in &path[1..] {
        assert!((2..=10).contains(&step.delay.0));
    }
}

#[test]
fn wind_mouse_path_starts_at_start_and_settles_on_target() {
    let path = generate_wind_mouse_path(Point::new(3, 4), Point::new(3, 4), &straight_glide);
    assert_eq!(path, vec![PathStep { point: Point::new(3, 4), delay: DelayMs(0) }]);
    let path = generate_wind_mouse_path(Point::new(0, 0), Point::new(50, -50), &straight_glide);
    assert_eq!(path.len(), 6);
    assert_eq!(path[0], PathStep { point: Point::new(0, 0), delay: DelayMs(0) });
    assert_eq!(path[5].point, Point::new(50, -50));
    assert!((5..=10).contains(&path[5].delay.0));
    // Steps far from the target wait 4–8 ms; the last one, near it, 2–4 ms.
    for step in &path[1..4] {
        assert!((4..=8).contains(&step.delay.0));
    }
    assert!((2..=4).contains(&path[4].delay.0));
    let arriving = |_s: Point, t: Point| vec![GlidePoint { point: t, near_target: true }];
    let path = generate_wind_mouse_path(Point::new(0, 0), Point::new(9, 9), &arriving);
    assert_eq!(path.len(), 2);
    assert_eq!(path[1].point, Point::new(9, 9));
    assert!((2..=4).contains(&path[1].delay.0));
}

#[test]
fn step_wait_is_halved_near_the_target_but_at_least_two() {
    assert_eq!(step_wait_ms(7, false), 7);
    assert_eq!(step_wait_ms(7, true), 3);
    assert_eq!(step_wait_ms(4, true), 2);
    assert_eq!(step_wait_ms(8, true), 4);
    assert_eq!(step_wait_ms(3, true), 2);
}

#[test]
fn active_movement_is_cut_from_the_recording() {
    let mut samples: Vec<(u128, Point)> = Vec::new();
    for t in 0..10 {
        samples.push((t, Point::new(0, 0)));
    }
    for t in 10..20 {
        samples.push((t, Point::new((t as i32 - 9) * 10, 0)));
    }
    for t in 20..60 {
        samples.push((t, Point::new(100, 0)));
    }
    let active = filter_active_movement(&samples);
    // Five samples before the first far sample (index 10) to five after the
    // last sample still moving within twenty samples (index 38).
    assert_eq!(active, samples[5..=43].to_vec());
    let still: Vec<(u128, Point)> = (0..8).map(|t| (t, Point::new(1, 1))).collect();
    assert_eq!(filter_active_movement(&still), still);
    let one = vec![(0u128, Point::new(5, 5))];
    assert_eq!(filter_active_movement(&one), one);
}

#[test]
fn test_points_in_window_keeps_samples_within_bounds() {
    let samples = vec![
        (0u128, Point::new(0, 0)),
        (10, Point::new(1, 1)),
        (20, Point::new(2, 2)),
        (30, Point::new(3, 3)),
    ];
    assert_eq!(
        points_in_window(&samples, 10, 20),
        vec![Point::new(1, 1), Point::new(2, 2)]
    );
    assert_eq!(points_in_window(&samples, 31, 40), Vec::<Point>::new());
    assert_eq!(points_in_window(&samples, 0, 30).len(), 4);
}

#[test]
fn polygon_points_lie_in_the_bounding_box() {
    let tri = vec![Point::new(0, 0), Point::new(20, 0), Point::new(0, 20)];
    // A target far outside: draws are kept in the box, fallbacks lie in it.
    let area = TargetArea::Polygon {
        vertices: tri.clone(),
        target: Some(Point::new(500, -500)),
        std_dev_x: None,
        std_dev_y: None,
    };
    for _ in 0..50 {
        let p = area.generate_click_point(&normal, &edge);
        assert!((0..=20).contains(&p.x) && (0..=20).contains(&p.y), "{p:?}");
    }
    let p = area.generate_click_point(&|_m, _s| 1_000, &edge);
    assert!((0..=20).contains(&p.x) && (0..=20).contains(&p.y), "{p:?}");
}

#[test]
fn inside_test_ignores_translation_and_rotation() {
    let square = vec![Point::new(0, 0), Point::new(10, 0), Point::new(10, 10), Point::new(0, 10)];
    let moved: Vec<Point> = square.iter().map(|p| Point::new(p.x + 100, p.y - 7)).collect();
    let mut turned = square.clone();
    turned.rotate_left(2);
    for (x, y) in [(5, 5), (0, 0), (9, 9), (10, 5), (-1, 3), (5, 10), (3, 0)] {
        let inside = is_point_in_polygon(x, y, &square);
        assert_eq!(is_point_in_polygon(x + 100, y - 7, &moved), inside);
        assert_eq!(is_point_in_polygon(x, y, &turned), inside);
    }
}
