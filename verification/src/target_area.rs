use vstd::prelude::*;
use crate::delay::{clamp_i32, clamp_spec, sample_gaussian_clamped};
use crate::types::Point;

verus! {

/// A spatial target on screen where input is directed. Points inside it are
/// drawn from a normal distribution skewed toward an anchor (by default the
/// area's centre), the way people aim.
#[derive(Debug, PartialEq, Eq)]
pub enum TargetArea {
    /// A single absolute pixel (no variance).
    Point(Point),
    /// A rectangle given by two corners.
    Rect {
        top_left: Point,
        bottom_right: Point,
        /// Where the distribution is centred (defaults to the centre).
        target: Option<Point>,
        /// Standard deviation along x (defaults to a sixth of the width, at least 1).
        std_dev_x: Option<i32>,
        /// Standard deviation along y (defaults to a sixth of the height, at least 1).
        std_dev_y: Option<i32>,
    },
    /// A disc.
    Circle {
        center: Point,
        radius: i32,
        /// Where the distribution is centred (defaults to the centre).
        target: Option<Point>,
        /// Standard deviation of each coordinate (defaults to a third of the radius, at least 1).
        std_dev: Option<i32>,
    },
    /// A polygon given by its vertices in order.
    Polygon {
        vertices: Vec<Point>,
        /// Where the distribution is centred (defaults to the vertex average).
        target: Option<Point>,
        /// Standard deviation along x (defaults to a sixth of the bounding box width, at least 1).
        std_dev_x: Option<i32>,
        /// Standard deviation along y (defaults to a sixth of the bounding box height, at least 1).
        std_dev_y: Option<i32>,
    },
}

impl TargetArea {
    /// Two areas have the same shape and parameters, vertices compared by their contents.
    pub open spec fn same_as(self, other: TargetArea) -> bool {
        match (self, other) {
            (TargetArea::Polygon { vertices: v1, target: t1, std_dev_x: x1, std_dev_y: y1 },
             TargetArea::Polygon { vertices: v2, target: t2, std_dev_x: x2, std_dev_y: y2 }) =>
                v1@ == v2@ && t1 == t2 && x1 == x2 && y1 == y2,
            (TargetArea::Polygon { .. }, _) => false,
            (_, TargetArea::Polygon { .. }) => false,
            _ => self == other,
        }
    }

    /// A copy of this area.
    pub fn duplicate(&self) -> (r: Self)
        ensures
            r.same_as(*self),
    {
        match self {
            TargetArea::Point(p) => TargetArea::Point(*p),
            TargetArea::Rect { top_left, bottom_right, target, std_dev_x, std_dev_y } => {
                TargetArea::Rect {
                    top_left: *top_left,
                    bottom_right: *bottom_right,
                    target: *target,
                    std_dev_x: *std_dev_x,
                    std_dev_y: *std_dev_y,
                }
            },
            TargetArea::Circle { center, radius, target, std_dev } => TargetArea::Circle {
                center: *center,
                radius: *radius,
                target: *target,
                std_dev: *std_dev,
            },
            TargetArea::Polygon { vertices, target, std_dev_x, std_dev_y } => {
                let mut vs: Vec<Point> = Vec::new();
                let mut i: usize = 0;
                while i < vertices.len()
                    invariant
                        i <= vertices@.len(),
                        vs@ == vertices@.take(i as int),
                    decreases vertices@.len() - i,
                {
                    vs.push(vertices[i]);
                    assert(vs@ =~= vertices@.take(i + 1));
                    i = i + 1;
                }
                assert(vs@ =~= vertices@);
                TargetArea::Polygon {
                    vertices: vs,
                    target: *target,
                    std_dev_x: *std_dev_x,
                    std_dev_y: *std_dev_y,
                }
            },
        }
    }
}

impl Clone for TargetArea {
    fn clone(&self) -> (r: Self)
        ensures
            r.same_as(*self),
    {
        self.duplicate()
    }
}

pub open spec fn abs_int(v: int) -> int {
    if v < 0 {
        -v
    } else {
        v
    }
}

/// Division rounding toward zero, as Rust's integer `/` does.
pub open spec fn trunc_div(a: int, b: int) -> int {
    let q = abs_int(a) / abs_int(b);
    if (a < 0) != (b < 0) {
        -q
    } else {
        q
    }
}

/// The midpoint of two integers, rounded toward zero.
pub open spec fn midpoint_spec(a: int, b: int) -> int {
    trunc_div(a + b, 2)
}

/// The default standard deviation for an extent: a sixth of its size, at least 1.
pub open spec fn default_std_dev(extent: int, divisor: int) -> int {
    let q = abs_int(extent) / divisor;
    if q < 1 {
        1
    } else {
        q
    }
}

fn midpoint_i32(a: i32, b: i32) -> (m: i32)
    ensures
        m == midpoint_spec(a as int, b as int),
{
    let s: i64 = a as i64 + b as i64;
    if s >= 0 {
        let h: i64 = s / 2;
        assert(0 <= h <= 0x7fff_ffff) by (nonlinear_arith)
            requires
                0 <= s <= 0xffff_fffe,
                h == s / 2,
        ;
        h as i32
    } else {
        let n: i64 = -s;
        let h: i64 = n / 2;
        assert(0 <= h <= 0x8000_0000) by (nonlinear_arith)
            requires
                0 < n <= 0x1_0000_0000,
                h == n / 2,
        ;
        (-h) as i32
    }
}

fn default_std_dev_i32(extent: i64, divisor: i64) -> (sd: i32)
    requires
        -0x1_0000_0000 <= extent <= 0x1_0000_0000,
        3 <= divisor,
    ensures
        sd == default_std_dev(extent as int, divisor as int),
{
    let a: i64 = if extent < 0 { -extent } else { extent };
    let q: i64 = a / divisor;
    assert(0 <= q <= a / 3) by (nonlinear_arith)
        requires
            0 <= a,
            3 <= divisor,
            q == a / divisor,
    ;
    if q < 1 {
        1
    } else {
        q as i32
    }
}

/// The sum of the x coordinates.
pub open spec fn sum_x(vs: Seq<Point>) -> int
    decreases vs.len(),
{
    if vs.len() == 0 {
        0
    } else {
        sum_x(vs.drop_last()) + vs.last().x
    }
}

/// The sum of the y coordinates.
pub open spec fn sum_y(vs: Seq<Point>) -> int
    decreases vs.len(),
{
    if vs.len() == 0 {
        0
    } else {
        sum_y(vs.drop_last()) + vs.last().y
    }
}

/// The vertex average of a polygon, each coordinate rounded toward zero;
/// `(0, 0)` for no vertices.
pub open spec fn centroid_spec(vs: Seq<Point>) -> (int, int) {
    if vs.len() == 0 {
        (0, 0)
    } else {
        (trunc_div(sum_x(vs), vs.len() as int), trunc_div(sum_y(vs), vs.len() as int))
    }
}

fn trunc_div_i64(a: i64, b: i64) -> (q: i64)
    requires
        b > 0,
        a > i64::MIN,
    ensures
        q == trunc_div(a as int, b as int),
{
    if a >= 0 {
        a / b
    } else {
        let n: i64 = -a;
        let m: i64 = n / b;
        assert(0 <= m <= n) by (nonlinear_arith)
            requires
                0 < n,
                0 < b,
                m == n / b,
        ;
        -m
    }
}

proof fn lemma_average_bounds(s: int, n: int, lo: int, hi: int)
    requires
        0 < n,
        lo <= 0 <= hi,
        lo * n <= s <= hi * n,
    ensures
        lo <= trunc_div(s, n) <= hi,
{
    if s >= 0 {
        assert(s / n <= hi) by (nonlinear_arith)
            requires
                0 <= s <= hi * n,
                0 < n,
        ;
        assert(0 <= s / n) by (nonlinear_arith)
            requires
                0 <= s,
                0 < n,
        ;
    } else {
        assert((-lo) * n == -(lo * n)) by (nonlinear_arith);
        assert((-s) / n <= -lo) by (nonlinear_arith)
            requires
                0 < -s <= (-lo) * n,
                0 < n,
        ;
        assert(0 <= (-s) / n) by (nonlinear_arith)
            requires
                0 < -s,
                0 < n,
        ;
    }
}

/// The vertex average of a polygon, each coordinate rounded toward zero;
/// `(0, 0)` for no vertices.
pub fn polygon_centroid(vertices: &[Point]) -> (c: (i32, i32))
    requires
        vertices@.len() <= i32::MAX,
    ensures
        c.0 == centroid_spec(vertices@).0,
        c.1 == centroid_spec(vertices@).1,
{
    let n = vertices.len();
    if n == 0 {
        return (0, 0);
    }
    let mut sx: i64 = 0;
    let mut sy: i64 = 0;
    let mut i: usize = 0;
    while i < n
        invariant
            n == vertices@.len(),
            n <= i32::MAX,
            i <= n,
            sx == sum_x(vertices@.take(i as int)),
            sy == sum_y(vertices@.take(i as int)),
            i32::MIN * i <= sx <= i32::MAX * i,
            i32::MIN * i <= sy <= i32::MAX * i,
        decreases n - i,
    {
        assert(vertices@.take(i + 1).drop_last() =~= vertices@.take(i as int));
        let p = vertices[i];
        assert(i32::MIN * (i + 1) == i32::MIN * i + i32::MIN) by (nonlinear_arith);
        assert(i32::MAX * (i + 1) == i32::MAX * i + i32::MAX) by (nonlinear_arith);
        assert(i32::MIN * i >= i32::MIN * 0x7fff_ffff) by (nonlinear_arith)
            requires
                i <= 0x7fff_ffff,
        ;
        assert(i32::MAX * i <= i32::MAX * 0x7fff_ffff) by (nonlinear_arith)
            requires
                i <= 0x7fff_ffff,
        ;
        sx = sx + p.x as i64;
        sy = sy + p.y as i64;
        i = i + 1;
    }
    assert(vertices@.take(n as int) =~= vertices@);
    let len = n as i64;
    proof {
        lemma_average_bounds(sx as int, n as int, i32::MIN as int, i32::MAX as int);
        lemma_average_bounds(sy as int, n as int, i32::MIN as int, i32::MAX as int);
    }
    let cx = trunc_div_i64(sx, len);
    let cy = trunc_div_i64(sy, len);
    (cx as i32, cy as i32)
}

/// Whether the edge from `vj` to `vi` crosses the horizontal ray going right
/// from `(x, y)`: the edge spans the ray's height and its x-intercept,
/// rounded toward zero, lies to the right of `x` (the ray-casting test of
/// PNPOLY).
pub open spec fn edge_crosses(vi: Point, vj: Point, x: int, y: int) -> bool {
    ((vi.y > y) != (vj.y > y)) && x < trunc_div((vj.x - vi.x) * (y - vi.y), vj.y - vi.y) + vi.x
}

/// How many of the first `n` edges cross the ray; edge `i` runs from vertex
/// `i - 1` (the last vertex for `i == 0`) to vertex `i`.
pub open spec fn crossings(vs: Seq<Point>, x: int, y: int, n: int) -> int
    decreases n,
{
    if n <= 0 {
        0
    } else {
        let i = n - 1;
        let j = if i == 0 {
            vs.len() - 1
        } else {
            i - 1
        };
        crossings(vs, x, y, n - 1) + if edge_crosses(vs[i], vs[j], x, y) {
            1int
        } else {
            0int
        }
    }
}

/// Whether `(x, y)` lies inside the polygon by the even-odd ray-casting rule;
/// never for fewer than three vertices.
pub open spec fn point_in_polygon(vs: Seq<Point>, x: int, y: int) -> bool {
    vs.len() >= 3 && crossings(vs, x, y, vs.len() as int) % 2 == 1
}

fn edge_crosses_exec(vi: Point, vj: Point, x: i32, y: i32) -> (r: bool)
    ensures
        r == edge_crosses(vi, vj, x as int, y as int),
{
    if (vi.y > y) == (vj.y > y) {
        return false;
    }
    let a: i128 = vj.x as i128 - vi.x as i128;
    let b: i128 = y as i128 - vi.y as i128;
    let den: i128 = vj.y as i128 - vi.y as i128;
    assert(-0x1_0000_0000_0000_0000 <= a * b <= 0x1_0000_0000_0000_0000) by (nonlinear_arith)
        requires
            -0x1_0000_0000 <= a <= 0x1_0000_0000,
            -0x1_0000_0000 <= b <= 0x1_0000_0000,
    ;
    let num: i128 = a * b;
    let an: i128 = if num < 0 { -num } else { num };
    let ad: i128 = if den < 0 { -den } else { den };
    let m: i128 = an / ad;
    assert(0 <= m <= an) by (nonlinear_arith)
        requires
            0 <= an,
            0 < ad,
            m == an / ad,
    ;
    let q: i128 = if (num < 0) != (den < 0) { -m } else { m };
    (x as i128) < q + vi.x as i128
}

/// Whether `(x, y)` lies inside the polygon, by ray casting (PNPOLY).
pub fn is_point_in_polygon(x: i32, y: i32, vertices: &[Point]) -> (inside: bool)
    ensures
        inside == point_in_polygon(vertices@, x as int, y as int),
{
    let n = vertices.len();
    if n < 3 {
        return false;
    }
    let mut inside = false;
    let mut i: usize = 0;
    while i < n
        invariant
            n == vertices@.len(),
            n >= 3,
            i <= n,
            inside == (crossings(vertices@, x as int, y as int, i as int) % 2 == 1),
        decreases n - i,
    {
        let j: usize = if i == 0 { n - 1 } else { i - 1 };
        if edge_crosses_exec(vertices[i], vertices[j], x, y) {
            inside = !inside;
        }
        i = i + 1;
    }
    inside
}

/// Whether `(x, y)` lies in the disc of the given centre and radius.
pub open spec fn in_circle(center: Point, radius: int, x: int, y: int) -> bool {
    (x - center.x) * (x - center.x) + (y - center.y) * (y - center.y) <= radius * radius
}

fn in_circle_exec(center: Point, radius: i32, x: i32, y: i32) -> (r: bool)
    ensures
        r == in_circle(center, radius as int, x as int, y as int),
{
    let dx: i128 = x as i128 - center.x as i128;
    let dy: i128 = y as i128 - center.y as i128;
    let rr: i128 = radius as i128;
    assert(0 <= dx * dx <= 0x1_0000_0000_0000_0000) by (nonlinear_arith)
        requires
            -0x1_0000_0000 <= dx <= 0x1_0000_0000,
    ;
    assert(0 <= dy * dy <= 0x1_0000_0000_0000_0000) by (nonlinear_arith)
        requires
            -0x1_0000_0000 <= dy <= 0x1_0000_0000,
    ;
    assert(0 <= rr * rr <= 0x1_0000_0000_0000_0000) by (nonlinear_arith)
        requires
            -0x1_0000_0000 <= rr <= 0x1_0000_0000,
    ;
    dx * dx + dy * dy <= rr * rr
}

impl TargetArea {
    /// The inputs on which points can be drawn: a rectangle's corners in
    /// order, a polygon of at most `i32::MAX` vertices; points, discs always.
    pub open spec fn can_sample(self) -> bool {
        match self {
            TargetArea::Point(_) => true,
            TargetArea::Rect { top_left, bottom_right, .. } => top_left.x <= bottom_right.x
                && top_left.y <= bottom_right.y,
            TargetArea::Circle { .. } => true,
            TargetArea::Polygon { vertices, .. } => vertices@.len() <= i32::MAX,
        }
    }

    /// Where the distribution of a rectangle is centred: the requested
    /// target (or the centre) brought inside the rectangle.
    pub open spec fn rect_anchor(self) -> (int, int) {
        match self {
            TargetArea::Rect { top_left, bottom_right, target, .. } => {
                let (tx, ty) = match target {
                    Some(p) => (p.x as int, p.y as int),
                    None => (
                        midpoint_spec(top_left.x as int, bottom_right.x as int),
                        midpoint_spec(top_left.y as int, bottom_right.y as int),
                    ),
                };
                (
                    clamp_spec(tx, top_left.x as int, bottom_right.x as int),
                    clamp_spec(ty, top_left.y as int, bottom_right.y as int),
                )
            },
            _ => (0, 0),
        }
    }

    /// The standard deviations of a rectangle's distribution.
    pub open spec fn rect_std_devs(self) -> (int, int) {
        match self {
            TargetArea::Rect { top_left, bottom_right, std_dev_x, std_dev_y, .. } => (
                match std_dev_x {
                    Some(s) => s as int,
                    None => default_std_dev(bottom_right.x - top_left.x, 6),
                },
                match std_dev_y {
                    Some(s) => s as int,
                    None => default_std_dev(bottom_right.y - top_left.y, 6),
                },
            ),
            _ => (0, 0),
        }
    }

    /// The requested target of a circle, or its centre.
    pub open spec fn circle_target(self) -> Point {
        match self {
            TargetArea::Circle { center, target, .. } => match target {
                Some(p) => p,
                None => center,
            },
            _ => Point { x: 0, y: 0 },
        }
    }

    /// The standard deviation of a circle's draws.
    pub open spec fn circle_std_dev(self) -> int {
        match self {
            TargetArea::Circle { radius, std_dev, .. } => match std_dev {
                Some(s) => s as int,
                None => default_std_dev(radius as int, 3),
            },
            _ => 0,
        }
    }

    /// The standard deviations of a polygon's draws.
    pub open spec fn polygon_std_devs(self) -> (int, int) {
        match self {
            TargetArea::Polygon { vertices, std_dev_x, std_dev_y, .. } => (
                match std_dev_x {
                    Some(s) => s as int,
                    None => default_std_dev(max_x_of(vertices@) - min_x_of(vertices@), 6),
                },
                match std_dev_y {
                    Some(s) => s as int,
                    None => default_std_dev(max_y_of(vertices@) - min_y_of(vertices@), 6),
                },
            ),
            _ => (0, 0),
        }
    }

    /// The requested target of a polygon, or its vertex average.
    pub open spec fn polygon_anchor(self) -> (int, int) {
        match self {
            TargetArea::Polygon { vertices, target, .. } => match target {
                Some(p) => (p.x as int, p.y as int),
                None => centroid_spec(vertices@),
            },
            _ => (0, 0),
        }
    }
}

/// The point drawn in a rectangle (see `generate_click_point`).
fn rect_point<N: Fn(i32, i32) -> i32>(
    top_left: Point,
    bottom_right: Point,
    target: Option<Point>,
    std_dev_x: Option<i32>,
    std_dev_y: Option<i32>,
    normal: &N,
) -> (p: Point)
    requires
        top_left.x <= bottom_right.x,
        top_left.y <= bottom_right.y,
        forall|m: i32, s: i32| call_requires(*normal, (m, s)),
    ensures
        ({
            let area = TargetArea::Rect { top_left, bottom_right, target, std_dev_x, std_dev_y };
            rect_point_drawn(area, p, normal)
        }),
{
    let x1 = top_left.x;
    let y1 = top_left.y;
    let x2 = bottom_right.x;
    let y2 = bottom_right.y;
    let (tx, ty) = match target {
        Some(q) => (q.x, q.y),
        None => (midpoint_i32(x1, x2), midpoint_i32(y1, y2)),
    };
    let tx = clamp_i32(tx, x1, x2);
    let ty = clamp_i32(ty, y1, y2);
    let s_x = match std_dev_x {
        Some(s) => s,
        None => default_std_dev_i32(x2 as i64 - x1 as i64, 6),
    };
    let s_y = match std_dev_y {
        Some(s) => s,
        None => default_std_dev_i32(y2 as i64 - y1 as i64, 6),
    };
    let ghost area = TargetArea::Rect { top_left, bottom_right, target, std_dev_x, std_dev_y };
    assert(tx == area.rect_anchor().0 as i32);
    assert(ty == area.rect_anchor().1 as i32);
    assert(s_x == area.rect_std_devs().0 as i32);
    assert(s_y == area.rect_std_devs().1 as i32);
    let rx = sample_gaussian_clamped(tx, s_x, x1, x2, normal);
    let ry = sample_gaussian_clamped(ty, s_y, y1, y2, normal);
    let p = Point::new(rx, ry);
    if x1 < x2 {
        let ghost d = choose|d: i32|
            call_ensures(*normal, (tx, s_x), d) && rx == clamp_spec(d as int, x1 as int, x2 as int);
        assert(call_ensures(*normal, (area.rect_anchor().0 as i32, area.rect_std_devs().0 as i32), d));
    }
    if y1 < y2 {
        let ghost d = choose|d: i32|
            call_ensures(*normal, (ty, s_y), d) && ry == clamp_spec(d as int, y1 as int, y2 as int);
        assert(call_ensures(*normal, (area.rect_anchor().1 as i32, area.rect_std_devs().1 as i32), d));
    }
    p
}

/// The relation between a rectangle, the normal draws and the point drawn:
/// each coordinate lies within the rectangle's span and is the draw around
/// the anchor (with the area's standard deviation) brought into the span, or
/// the span's only value when it is a single pixel wide.
pub open spec fn rect_point_drawn<N: Fn(i32, i32) -> i32>(area: TargetArea, p: Point, normal: &N) -> bool {
    match area {
        TargetArea::Rect { top_left, bottom_right, .. } => {
            let (ax, ay) = area.rect_anchor();
            let (sx, sy) = area.rect_std_devs();
            &&& top_left.x <= p.x <= bottom_right.x
            &&& top_left.y <= p.y <= bottom_right.y
            &&& top_left.x == bottom_right.x ==> p.x == top_left.x
            &&& top_left.y == bottom_right.y ==> p.y == top_left.y
            &&& top_left.x < bottom_right.x ==> exists|d: i32|
                #[trigger] call_ensures(*normal, (ax as i32, sx as i32), d) && p.x == clamp_spec(
                    d as int,
                    top_left.x as int,
                    bottom_right.x as int,
                )
            &&& top_left.y < bottom_right.y ==> exists|d: i32|
                #[trigger] call_ensures(*normal, (ay as i32, sy as i32), d) && p.y == clamp_spec(
                    d as int,
                    top_left.y as int,
                    bottom_right.y as int,
                )
        },
        _ => false,
    }
}

/// Whether an integer fits in `i32`.
pub open spec fn fits_i32(v: int) -> bool {
    i32::MIN <= v <= i32::MAX
}

/// Where a circle's draws are centred: the target (or the centre) when it
/// lies in the disc; otherwise the point of the circle's edge toward it that
/// `edge` gives, or the centre should that point leave `i32`.
pub open spec fn circle_mean_ok<E: Fn(i64, i64, i32) -> (i32, i32)>(
    area: TargetArea,
    m: Point,
    edge: &E,
) -> bool {
    match area {
        TargetArea::Circle { center, radius, .. } => {
            let t = area.circle_target();
            if in_circle(center, radius as int, t.x as int, t.y as int) {
                m == t
            } else {
                exists|o: (i32, i32)|
                    #[trigger] call_ensures(
                        *edge,
                        ((t.x - center.x) as i64, (t.y - center.y) as i64, radius),
                        o,
                    ) && if fits_i32(center.x + o.0) && fits_i32(center.y + o.1) {
                        m.x == center.x + o.0 && m.y == center.y + o.1
                    } else {
                        m == center
                    }
            }
        },
        _ => false,
    }
}

/// The point taken when no draw fell in the disc: the mean of the draws if
/// it lies in the disc, otherwise the centre.
pub open spec fn circle_fallback(area: TargetArea, m: Point) -> Point {
    match area {
        TargetArea::Circle { center, radius, .. } => if in_circle(
            center,
            radius as int,
            m.x as int,
            m.y as int,
        ) {
            m
        } else {
            center
        },
        _ => m,
    }
}

/// Whether every pair of `ds` lies outside the disc.
pub open spec fn all_outside_circle(center: Point, radius: int, ds: Seq<(i32, i32)>) -> bool {
    forall|k: int| 0 <= k < ds.len() ==> !in_circle(center, radius, #[trigger] ds[k].0 as int, ds[k].1 as int)
}

/// Whether each pair of `ds` is a pair of normal draws around `m` with standard deviation `s`.
pub open spec fn drawn_around<N: Fn(i32, i32) -> i32>(
    normal: &N,
    m: Point,
    s: i32,
    ds: Seq<(i32, i32)>,
) -> bool {
    forall|k: int|
        0 <= k < ds.len() ==> call_ensures(*normal, (m.x, s), #[trigger] ds[k].0) && call_ensures(
            *normal,
            (m.y, s),
            ds[k].1,
        )
}

/// How rejection sampling in a disc ends, given the draws made, in order:
/// at the first pair that falls in the disc, which is the point; or after a
/// hundred pairs that all fell outside, with the fallback as the point.
pub open spec fn circle_draws_end<N: Fn(i32, i32) -> i32>(
    area: TargetArea,
    m: Point,
    ds: Seq<(i32, i32)>,
    p: Point,
    normal: &N,
) -> bool {
    match area {
        TargetArea::Circle { center, radius, .. } => {
            &&& drawn_around(normal, m, area.circle_std_dev() as i32, ds)
            &&& 1 <= ds.len() <= 100
            &&& all_outside_circle(center, radius as int, ds.drop_last())
            &&& {
                ||| (in_circle(center, radius as int, ds.last().0 as int, ds.last().1 as int)
                    && p.x == ds.last().0 && p.y == ds.last().1)
                ||| (ds.len() == 100 && !in_circle(
                    center,
                    radius as int,
                    ds.last().0 as int,
                    ds.last().1 as int,
                ) && p == circle_fallback(area, m))
            }
        },
        _ => false,
    }
}

/// The relation between a circle, the draws and the point drawn: there is a
/// mean for the draws and a run of draws around it that ends with `p`.
pub open spec fn circle_point_drawn<N: Fn(i32, i32) -> i32, E: Fn(i64, i64, i32) -> (i32, i32)>(
    area: TargetArea,
    p: Point,
    normal: &N,
    edge: &E,
) -> bool {
    exists|m: Point, ds: Seq<(i32, i32)>|
        #![trigger circle_mean_ok(area, m, edge), circle_draws_end(area, m, ds, p, normal)]
        circle_mean_ok(area, m, edge) && circle_draws_end(area, m, ds, p, normal)
}

proof fn lemma_center_in_circle(center: Point, radius: int)
    ensures
        in_circle(center, radius, center.x as int, center.y as int),
{
    let cx = center.x as int;
    let cy = center.y as int;
    assert((cx - cx) * (cx - cx) + (cy - cy) * (cy - cy) <= radius * radius) by (nonlinear_arith);
}

/// The point drawn in a disc (see `generate_click_point`).
fn circle_point<N: Fn(i32, i32) -> i32, E: Fn(i64, i64, i32) -> (i32, i32)>(
    center: Point,
    radius: i32,
    target: Option<Point>,
    std_dev: Option<i32>,
    normal: &N,
    edge: &E,
) -> (p: Point)
    requires
        forall|m: i32, s: i32| call_requires(*normal, (m, s)),
        forall|dx: i64, dy: i64, r: i32| call_requires(*edge, (dx, dy, r)),
    ensures
        in_circle(center, radius as int, p.x as int, p.y as int),
        circle_point_drawn(TargetArea::Circle { center, radius, target, std_dev }, p, normal, edge),
{
    let ghost area = TargetArea::Circle { center, radius, target, std_dev };
    let t = match target {
        Some(q) => q,
        None => center,
    };
    let mean = if in_circle_exec(center, radius, t.x, t.y) {
        t
    } else {
        let dx: i64 = t.x as i64 - center.x as i64;
        let dy: i64 = t.y as i64 - center.y as i64;
        let o = edge(dx, dy, radius);
        assert(call_ensures(
            *edge,
            ((area.circle_target().x - center.x) as i64, (area.circle_target().y - center.y) as i64, radius),
            o,
        ));
        let ex: i64 = center.x as i64 + o.0 as i64;
        let ey: i64 = center.y as i64 + o.1 as i64;
        if i32::MIN as i64 <= ex && ex <= i32::MAX as i64 && i32::MIN as i64 <= ey && ey
            <= i32::MAX as i64 {
            Point::new(ex as i32, ey as i32)
        } else {
            center
        }
    };
    assert(circle_mean_ok(area, mean, edge));
    let s = match std_dev {
        Some(s) => s,
        None => default_std_dev_i32(radius as i64, 3),
    };
    assert(s == area.circle_std_dev() as i32);
    let ghost mut ds: Seq<(i32, i32)> = Seq::empty();
    let mut attempts: u32 = 0;
    while attempts < 100
        invariant
            forall|m: i32, s: i32| call_requires(*normal, (m, s)),
            s == area.circle_std_dev() as i32,
            area == (TargetArea::Circle { center, radius, target, std_dev }),
            ds.len() == attempts,
            attempts <= 100,
            drawn_around(normal, mean, s, ds),
            all_outside_circle(center, radius as int, ds),
            circle_mean_ok(area, mean, edge),
        decreases 100 - attempts,
    {
        let rx = normal(mean.x, s);
        let ry = normal(mean.y, s);
        let ghost before = ds;
        proof {
            ds = ds.push((rx, ry));
            assert(ds.drop_last() =~= before);
        }
        if in_circle_exec(center, radius, rx, ry) {
            let p = Point::new(rx, ry);
            assert(circle_mean_ok(area, mean, edge) && circle_draws_end(area, mean, ds, p, normal));
            return p;
        }
        attempts = attempts + 1;
    }
    let fallback = if in_circle_exec(center, radius, mean.x, mean.y) {
        mean
    } else {
        center
    };
    assert(ds.drop_last().len() == 99);
    assert(all_outside_circle(center, radius as int, ds.drop_last()));
    assert(!in_circle(center, radius as int, ds.last().0 as int, ds.last().1 as int)) by {
        assert(ds.last() == ds[99]);
    }
    assert(circle_draws_end(area, mean, ds, fallback, normal));
    proof {
        lemma_center_in_circle(center, radius as int);
    }
    assert(circle_mean_ok(area, mean, edge) && circle_draws_end(area, mean, ds, fallback, normal));
    fallback
}

/// The smallest x of the vertices (`i32::MAX` for none).
pub open spec fn min_x_of(vs: Seq<Point>) -> int
    decreases vs.len(),
{
    if vs.len() == 0 {
        i32::MAX as int
    } else if vs.last().x < min_x_of(vs.drop_last()) {
        vs.last().x as int
    } else {
        min_x_of(vs.drop_last())
    }
}

/// The largest x of the vertices (`i32::MIN` for none).
pub open spec fn max_x_of(vs: Seq<Point>) -> int
    decreases vs.len(),
{
    if vs.len() == 0 {
        i32::MIN as int
    } else if vs.last().x > max_x_of(vs.drop_last()) {
        vs.last().x as int
    } else {
        max_x_of(vs.drop_last())
    }
}

/// The smallest y of the vertices (`i32::MAX` for none).
pub open spec fn min_y_of(vs: Seq<Point>) -> int
    decreases vs.len(),
{
    if vs.len() == 0 {
        i32::MAX as int
    } else if vs.last().y < min_y_of(vs.drop_last()) {
        vs.last().y as int
    } else {
        min_y_of(vs.drop_last())
    }
}

/// The largest y of the vertices (`i32::MIN` for none).
pub open spec fn max_y_of(vs: Seq<Point>) -> int
    decreases vs.len(),
{
    if vs.len() == 0 {
        i32::MIN as int
    } else if vs.last().y > max_y_of(vs.drop_last()) {
        vs.last().y as int
    } else {
        max_y_of(vs.drop_last())
    }
}

/// Whether `p` lies in the bounding box of the vertices.
pub open spec fn in_box(vs: Seq<Point>, p: Point) -> bool {
    min_x_of(vs) <= p.x <= max_x_of(vs) && min_y_of(vs) <= p.y <= max_y_of(vs)
}

/// A value drawn by `sample_gaussian_clamped(mean, sd, lo, hi, normal)`:
/// `lo` when the bounds leave no room, otherwise a draw around `mean`
/// brought into `lo..=hi`.
pub open spec fn clamped_draw<N: Fn(i32, i32) -> i32>(
    normal: &N,
    mean: i32,
    sd: i32,
    lo: int,
    hi: int,
    v: int,
) -> bool {
    if lo >= hi {
        v == lo
    } else {
        lo <= v <= hi && exists|d: i32|
            #[trigger] call_ensures(*normal, (mean, sd), d) && v == clamp_spec(d as int, lo, hi)
    }
}

/// Whether every pair of `ds` lies outside the polygon.
pub open spec fn all_outside_polygon(vs: Seq<Point>, ds: Seq<(i32, i32)>) -> bool {
    forall|k: int| 0 <= k < ds.len() ==> !point_in_polygon(vs, #[trigger] ds[k].0 as int, ds[k].1 as int)
}

/// The point taken when no draw fell inside the polygon: the first of the
/// anchor and the vertex average that lies inside, else the first vertex.
pub open spec fn polygon_fallback(area: TargetArea) -> Point {
    match area {
        TargetArea::Polygon { vertices, .. } => {
            let vs = vertices@;
            let (ax, ay) = area.polygon_anchor();
            let (cx, cy) = centroid_spec(vs);
            if point_in_polygon(vs, ax, ay) {
                Point { x: ax as i32, y: ay as i32 }
            } else if point_in_polygon(vs, cx, cy) {
                Point { x: cx as i32, y: cy as i32 }
            } else {
                vs[0]
            }
        },
        _ => Point { x: 0, y: 0 },
    }
}

/// Whether `d` is a pair that the polygon's sampling can draw: each
/// coordinate a draw around the anchor's, kept within the bounding box.
pub open spec fn polygon_pair_drawn<N: Fn(i32, i32) -> i32>(
    area: TargetArea,
    normal: &N,
    d: (i32, i32),
) -> bool {
    match area {
        TargetArea::Polygon { vertices, .. } => {
            &&& clamped_draw(
                normal,
                area.polygon_anchor().0 as i32,
                area.polygon_std_devs().0 as i32,
                min_x_of(vertices@),
                max_x_of(vertices@),
                d.0 as int,
            )
            &&& clamped_draw(
                normal,
                area.polygon_anchor().1 as i32,
                area.polygon_std_devs().1 as i32,
                min_y_of(vertices@),
                max_y_of(vertices@),
                d.1 as int,
            )
        },
        _ => false,
    }
}

/// How rejection sampling in a polygon ends, given the pairs drawn, in
/// order: at the first pair that falls inside, which is the point; or after
/// a hundred pairs that all fell outside, with the fallback as the point.
pub open spec fn polygon_draws_end<N: Fn(i32, i32) -> i32>(
    area: TargetArea,
    ds: Seq<(i32, i32)>,
    p: Point,
    normal: &N,
) -> bool {
    match area {
        TargetArea::Polygon { vertices, .. } => {
            &&& forall|k: int| 0 <= k < ds.len() ==> #[trigger] polygon_pair_drawn(area, normal, ds[k])
            &&& 1 <= ds.len() <= 100
            &&& all_outside_polygon(vertices@, ds.drop_last())
            &&& {
                ||| (point_in_polygon(vertices@, ds.last().0 as int, ds.last().1 as int) && p.x
                    == ds.last().0 && p.y == ds.last().1)
                ||| (ds.len() == 100 && !point_in_polygon(
                    vertices@,
                    ds.last().0 as int,
                    ds.last().1 as int,
                ) && p == polygon_fallback(area))
            }
        },
        _ => false,
    }
}

/// The relation between a polygon, the draws and the point drawn: no
/// vertices give `(0, 0)`; otherwise a run of draws ends with `p`.
pub open spec fn polygon_point_drawn<N: Fn(i32, i32) -> i32>(area: TargetArea, p: Point, normal: &N) -> bool {
    match area {
        TargetArea::Polygon { vertices, .. } => {
            &&& vertices@.len() == 0 ==> p == Point { x: 0, y: 0 }
            &&& vertices@.len() > 0 ==> exists|ds: Seq<(i32, i32)>|
                #[trigger] polygon_draws_end(area, ds, p, normal)
        },
        _ => false,
    }
}

/// The bounding box `(min_x, max_x, min_y, max_y)` of the vertices.
fn bounding_box(vertices: &Vec<Point>) -> (b: (i32, i32, i32, i32))
    ensures
        b.0 == min_x_of(vertices@),
        b.1 == max_x_of(vertices@),
        b.2 == min_y_of(vertices@),
        b.3 == max_y_of(vertices@),
{
    let mut min_x: i32 = i32::MAX;
    let mut max_x: i32 = i32::MIN;
    let mut min_y: i32 = i32::MAX;
    let mut max_y: i32 = i32::MIN;
    let mut i: usize = 0;
    while i < vertices.len()
        invariant
            i <= vertices@.len(),
            min_x == min_x_of(vertices@.take(i as int)),
            max_x == max_x_of(vertices@.take(i as int)),
            min_y == min_y_of(vertices@.take(i as int)),
            max_y == max_y_of(vertices@.take(i as int)),
        decreases vertices@.len() - i,
    {
        assert(vertices@.take(i + 1).drop_last() =~= vertices@.take(i as int));
        let v = vertices[i];
        if v.x < min_x {
            min_x = v.x;
        }
        if v.x > max_x {
            max_x = v.x;
        }
        if v.y < min_y {
            min_y = v.y;
        }
        if v.y > max_y {
            max_y = v.y;
        }
        i = i + 1;
    }
    assert(vertices@.take(i as int) =~= vertices@);
    (min_x, max_x, min_y, max_y)
}

/// The point drawn in a polygon (see `generate_click_point`).
fn polygon_point<N: Fn(i32, i32) -> i32>(
    vertices: &Vec<Point>,
    target: Option<Point>,
    std_dev_x: Option<i32>,
    std_dev_y: Option<i32>,
    normal: &N,
) -> (p: Point)
    requires
        vertices@.len() <= i32::MAX,
        forall|m: i32, s: i32| call_requires(*normal, (m, s)),
    ensures
        polygon_point_drawn(
            TargetArea::Polygon { vertices: *vertices, target, std_dev_x, std_dev_y },
            p,
            normal,
        ),
        vertices@.len() > 0 ==> in_box(vertices@, p),
{
    let ghost area = TargetArea::Polygon { vertices: *vertices, target, std_dev_x, std_dev_y };
    if vertices.len() == 0 {
        return Point::new(0, 0);
    }
    let (dtx, dty) = polygon_centroid(vertices.as_slice());
    let (tx, ty) = match target {
        Some(q) => (q.x, q.y),
        None => (dtx, dty),
    };
    let (min_x, max_x, min_y, max_y) = bounding_box(vertices);
    let s_x = match std_dev_x {
        Some(s) => s,
        None => default_std_dev_i32(max_x as i64 - min_x as i64, 6),
    };
    let s_y = match std_dev_y {
        Some(s) => s,
        None => default_std_dev_i32(max_y as i64 - min_y as i64, 6),
    };
    assert(tx == area.polygon_anchor().0 && ty == area.polygon_anchor().1);
    assert(s_x == area.polygon_std_devs().0 && s_y == area.polygon_std_devs().1);
    let ghost mut ds: Seq<(i32, i32)> = Seq::empty();
    let ghost vs = vertices@;
    let mut attempts: u32 = 0;
    while attempts < 100
        invariant
            forall|m: i32, s: i32| call_requires(*normal, (m, s)),
            vertices@.len() > 0,
            vs == vertices@,
            ds.len() == attempts,
            attempts <= 100,
            all_outside_polygon(vs, ds),
            forall|k: int| 0 <= k < ds.len() ==> #[trigger] polygon_pair_drawn(area, normal, ds[k]),
            area == (TargetArea::Polygon { vertices: *vertices, target, std_dev_x, std_dev_y }),
            tx == area.polygon_anchor().0,
            ty == area.polygon_anchor().1,
            s_x == area.polygon_std_devs().0,
            s_y == area.polygon_std_devs().1,
            min_x == min_x_of(vertices@),
            max_x == max_x_of(vertices@),
            min_y == min_y_of(vertices@),
            max_y == max_y_of(vertices@),
        decreases 100 - attempts,
    {
        let rx = sample_gaussian_clamped(tx, s_x, min_x, max_x, normal);
        let ry = sample_gaussian_clamped(ty, s_y, min_y, max_y, normal);
        assert(clamped_draw(normal, tx, s_x, min_x as int, max_x as int, rx as int));
        assert(clamped_draw(normal, ty, s_y, min_y as int, max_y as int, ry as int));
        assert(polygon_pair_drawn(area, normal, (rx, ry)));
        let ghost before = ds;
        proof {
            ds = ds.push((rx, ry));
            assert(ds.drop_last() =~= before);
        }
        if is_point_in_polygon(rx, ry, vertices.as_slice()) {
            let p = Point::new(rx, ry);
            assert(polygon_draws_end(area, ds, p, normal));
            assert(in_box(vs, p));
            return p;
        }
        attempts = attempts + 1;
    }
    assert(ds.last() == ds[99]);
    let p = if is_point_in_polygon(tx, ty, vertices.as_slice()) {
        Point::new(tx, ty)
    } else if is_point_in_polygon(dtx, dty, vertices.as_slice()) {
        Point::new(dtx, dty)
    } else {
        vertices[0]
    };
    assert(p == polygon_fallback(area));
    assert(!point_in_polygon(vs, ds[99].0 as int, ds[99].1 as int));
    assert(all_outside_polygon(vs, ds.drop_last())) by {
        assert forall|k: int| 0 <= k < ds.drop_last().len() implies !point_in_polygon(
            vs,
            #[trigger] ds.drop_last()[k].0 as int,
            ds.drop_last()[k].1 as int,
        ) by {
            assert(ds.drop_last()[k] == ds[k]);
        }
    }
    assert(!point_in_polygon(vs, ds.last().0 as int, ds.last().1 as int));
    assert(ds.len() == 100);
    assert(polygon_draws_end(area, ds, p, normal));
    proof {
        if point_in_polygon(vs, p.x as int, p.y as int) {
            lemma_inside_lies_in_box(vs, p.x as int, p.y as int);
        } else {
            lemma_vertex_in_box(vs);
            assert(p == vs[0]);
        }
    }
    p
}

impl TargetArea {
    /// Whether points can be drawn from this area without leaving `i32`
    /// (see `can_sample`).
    pub fn sampling_supported(&self) -> (ok: bool)
        ensures
            ok == self.can_sample(),
    {
        match self {
            TargetArea::Point(_) => true,
            TargetArea::Rect { top_left, bottom_right, .. } => top_left.x <= bottom_right.x
                && top_left.y <= bottom_right.y,
            TargetArea::Circle { .. } => true,
            TargetArea::Polygon { vertices, .. } => vertices.len() <= i32::MAX as usize,
        }
    }

    /// Draws a point of the area the way a person aims at it. `normal(mean,
    /// sd)` gives a draw from the normal distribution of that mean and
    /// standard deviation, rounded to the nearest integer; `edge(dx, dy, r)`
    /// gives the offset, rounded, of the point at distance `r` from a
    /// circle's centre in the direction `(dx, dy)`.
    ///
    /// A point is returned as is. In a rectangle each coordinate is a draw
    /// around the anchor (the target, or the centre, brought inside), kept
    /// within the rectangle. In a disc, pairs of draws around the mean (the
    /// target when inside, else the edge point toward it) are repeated up to
    /// a hundred times until one falls inside; the fallback is the mean if it
    /// lies in the disc and the centre otherwise, so the point always lies in
    /// the disc.
    /// In a polygon, draws around the anchor (the target, or the vertex
    /// average), kept within the bounding box, are repeated up to a hundred
    /// times until one falls inside; the fallbacks are the anchor, the
    /// vertex average and the first vertex, in that order, the first of them
    /// that lies inside; the point always lies in the vertices' bounding box.
    pub fn generate_click_point<N: Fn(i32, i32) -> i32, E: Fn(i64, i64, i32) -> (i32, i32)>(
        &self,
        normal: &N,
        edge: &E,
    ) -> (p: Point)
        requires
            self.can_sample(),
            forall|m: i32, s: i32| call_requires(*normal, (m, s)),
            forall|dx: i64, dy: i64, r: i32| call_requires(*edge, (dx, dy, r)),
        ensures
            match *self {
                TargetArea::Point(q) => p == q,
                TargetArea::Rect { .. } => rect_point_drawn(*self, p, normal),
                TargetArea::Circle { center, radius, .. } => in_circle(
                    center,
                    radius as int,
                    p.x as int,
                    p.y as int,
                ) && circle_point_drawn(*self, p, normal, edge),
                TargetArea::Polygon { vertices, .. } => polygon_point_drawn(*self, p, normal) && (
                vertices@.len() > 0 ==> in_box(vertices@, p)),
            },
    {
        match self {
            TargetArea::Point(q) => *q,
            TargetArea::Rect { top_left, bottom_right, target, std_dev_x, std_dev_y } => rect_point(
                *top_left,
                *bottom_right,
                *target,
                *std_dev_x,
                *std_dev_y,
                normal,
            ),
            TargetArea::Circle { center, radius, target, std_dev } => circle_point(
                *center,
                *radius,
                *target,
                *std_dev,
                normal,
                edge,
            ),
            TargetArea::Polygon { vertices, target, std_dev_x, std_dev_y } => polygon_point(
                vertices,
                *target,
                *std_dev_x,
                *std_dev_y,
                normal,
            ),
        }
    }
}

} // verus!
verus! {

proof fn lemma_vertex_in_box(vs: Seq<Point>)
    ensures
        forall|i: int|
            #![trigger vs[i]]
            0 <= i < vs.len() ==> min_x_of(vs) <= vs[i].x <= max_x_of(vs) && min_y_of(vs) <= vs[i].y
                <= max_y_of(vs),
    decreases vs.len(),
{
    if vs.len() > 0 {
        let m = vs.drop_last();
        lemma_vertex_in_box(m);
        assert forall|i: int| #![trigger vs[i]] 0 <= i < vs.len() implies min_x_of(vs) <= vs[i].x
            <= max_x_of(vs) && min_y_of(vs) <= vs[i].y <= max_y_of(vs) by {
            if i < vs.len() - 1 {
                assert(vs[i] == m[i]);
            }
        }
    }
}

/// Whether the edge from `vj` to `vi` spans the height `y`.
pub open spec fn edge_spans(vi: Point, vj: Point, y: int) -> bool {
    (vi.y > y) != (vj.y > y)
}

/// How many of the first `n` edges span the height `y` (edges as in `crossings`).
pub open spec fn spans(vs: Seq<Point>, y: int, n: int) -> int
    decreases n,
{
    if n <= 0 {
        0
    } else {
        let i = n - 1;
        let j = if i == 0 {
            vs.len() - 1
        } else {
            i - 1
        };
        spans(vs, y, n - 1) + if edge_spans(vs[i], vs[j], y) {
            1int
        } else {
            0int
        }
    }
}

/// The x-intercept of an edge that spans the ray's height lies between the
/// edge's end points.
proof fn lemma_intercept_between(vi: Point, vj: Point, y: int)
    requires
        edge_spans(vi, vj, y),
    ensures
        ({
            let q = trunc_div((vj.x - vi.x) * (y - vi.y), vj.y - vi.y) + vi.x;
            &&& (vi.x <= vj.x ==> vi.x <= q <= vj.x)
            &&& (vj.x <= vi.x ==> vj.x <= q <= vi.x)
        }),
{
    let a = vj.x - vi.x;
    let b = y - vi.y;
    let d = vj.y - vi.y;
    let ab = a * b;
    let na = abs_int(a);
    let nb = abs_int(b);
    let nd = abs_int(d);
    assert((d > 0 && 0 <= b < d) || (d < 0 && d <= b < 0));
    assert(nb <= nd && nd > 0);
    assert(abs_int(ab) == na * nb) by {
        if a >= 0 && b >= 0 {
            assert(a * b >= 0) by (nonlinear_arith)
                requires
                    a >= 0,
                    b >= 0,
            ;
        } else if a >= 0 && b < 0 {
            assert(a * b <= 0 && -(a * b) == a * (-b)) by (nonlinear_arith)
                requires
                    a >= 0,
                    b < 0,
            ;
        } else if a < 0 && b >= 0 {
            assert(a * b <= 0 && -(a * b) == (-a) * b) by (nonlinear_arith)
                requires
                    a < 0,
                    b >= 0,
            ;
        } else {
            assert(a * b > 0 && a * b == (-a) * (-b)) by (nonlinear_arith)
                requires
                    a < 0,
                    b < 0,
            ;
        }
    }
    let m = abs_int(ab) / nd;
    assert(0 <= m <= na) by (nonlinear_arith)
        requires
            m == (na * nb) / nd,
            0 <= nb <= nd,
            nd > 0,
            na >= 0,
    ;
    assert((b < 0) == (d < 0));
    let q = trunc_div(ab, d);
    if ab == 0 {
        assert(abs_int(ab) == 0);
        assert(m == 0);
        assert(q == 0);
    } else {
        if a > 0 {
            assert((ab < 0) == (b < 0)) by (nonlinear_arith)
                requires
                    a > 0,
                    ab == a * b,
            ;
            assert(q == m);
            assert(na == a);
        } else {
            assert(a != 0) by {
                if a == 0 {
                    assert(a * b == 0) by (nonlinear_arith)
                        requires
                            a == 0,
                    ;
                }
            }
            assert((ab < 0) == (b > 0)) by (nonlinear_arith)
                requires
                    a < 0,
                    ab == a * b,
            ;
            assert(b != 0) by {
                if b == 0 {
                    assert(a * b == 0) by (nonlinear_arith)
                        requires
                            b == 0,
                    ;
                }
            }
            assert(q == -m);
            assert(na == -a);
        }
    }
}

proof fn lemma_crossings_le_spans(vs: Seq<Point>, x: int, y: int, n: int)
    ensures
        0 <= crossings(vs, x, y, n) <= spans(vs, y, n),
    decreases n,
{
    if n > 0 {
        lemma_crossings_le_spans(vs, x, y, n - 1);
    }
}

/// Left of every vertex, the ray crosses every edge that spans its height.
proof fn lemma_left_crosses_all(vs: Seq<Point>, x: int, y: int, n: int)
    requires
        n <= vs.len(),
        vs.len() >= 1,
        x < min_x_of(vs),
    ensures
        crossings(vs, x, y, n) == spans(vs, y, n),
    decreases n,
{
    if n > 0 {
        lemma_left_crosses_all(vs, x, y, n - 1);
        lemma_vertex_in_box(vs);
        let i = n - 1;
        let j = if i == 0 {
            vs.len() - 1
        } else {
            i - 1
        };
        assert(min_x_of(vs) <= vs[i].x);
        assert(min_x_of(vs) <= vs[j].x);
        if edge_spans(vs[i], vs[j], y) {
            lemma_intercept_between(vs[i], vs[j], y);
        }
    }
}

/// Right of every vertex, the ray crosses no edge.
proof fn lemma_right_crosses_none(vs: Seq<Point>, x: int, y: int, n: int)
    requires
        n <= vs.len(),
        vs.len() >= 1,
        x >= max_x_of(vs),
    ensures
        crossings(vs, x, y, n) == 0,
    decreases n,
{
    if n > 0 {
        lemma_right_crosses_none(vs, x, y, n - 1);
        lemma_vertex_in_box(vs);
        let i = n - 1;
        let j = if i == 0 {
            vs.len() - 1
        } else {
            i - 1
        };
        assert(vs[i].x <= max_x_of(vs));
        assert(vs[j].x <= max_x_of(vs));
        if edge_spans(vs[i], vs[j], y) {
            lemma_intercept_between(vs[i], vs[j], y);
        }
    }
}

/// Below every vertex or at or above the highest, no edge spans the height.
proof fn lemma_outside_heights_span_none(vs: Seq<Point>, y: int, n: int)
    requires
        n <= vs.len(),
        vs.len() >= 1,
        y < min_y_of(vs) || y >= max_y_of(vs),
    ensures
        spans(vs, y, n) == 0,
    decreases n,
{
    if n > 0 {
        lemma_outside_heights_span_none(vs, y, n - 1);
        lemma_vertex_in_box(vs);
        let i = n - 1;
        let j = if i == 0 {
            vs.len() - 1
        } else {
            i - 1
        };
        assert(min_y_of(vs) <= vs[i].y <= max_y_of(vs));
        assert(min_y_of(vs) <= vs[j].y <= max_y_of(vs));
    }
}

/// Around the whole polygon the heights change sides an even number of times.
proof fn lemma_spans_parity(vs: Seq<Point>, y: int, n: int)
    requires
        1 <= n <= vs.len(),
    ensures
        ({
            let w = if edge_spans(vs[0], vs[vs.len() - 1], y) {
                1int
            } else {
                0int
            };
            (spans(vs, y, n) - w) % 2 == (if (vs[0].y > y) != (vs[n - 1].y > y) {
                1int
            } else {
                0int
            })
        }),
    decreases n,
{
    if n > 1 {
        lemma_spans_parity(vs, y, n - 1);
    } else {
        assert(spans(vs, y, 0) == 0);
    }
}

/// A point inside a polygon by the ray-casting rule lies in the bounding box
/// of its vertices (at most on the low edges, strictly below the high ones).
pub proof fn lemma_inside_lies_in_box(vs: Seq<Point>, x: int, y: int)
    requires
        point_in_polygon(vs, x, y),
    ensures
        min_x_of(vs) <= x < max_x_of(vs),
        min_y_of(vs) <= y < max_y_of(vs),
{
    let n = vs.len() as int;
    lemma_crossings_le_spans(vs, x, y, n);
    if x < min_x_of(vs) {
        lemma_left_crosses_all(vs, x, y, n);
        lemma_spans_parity(vs, y, n);
        assert(false);
    }
    if x >= max_x_of(vs) {
        lemma_right_crosses_none(vs, x, y, n);
        assert(false);
    }
    if y < min_y_of(vs) || y >= max_y_of(vs) {
        lemma_outside_heights_span_none(vs, y, n);
        assert(false);
    }
}

} // verus!
verus! {

/// The polygon moved by `(dx, dy)`.
pub open spec fn translated(vs: Seq<Point>, dx: int, dy: int) -> Seq<Point> {
    Seq::new(vs.len(), |i: int| Point { x: (vs[i].x + dx) as i32, y: (vs[i].y + dy) as i32 })
}

/// Whether the polygon moved by `(dx, dy)` keeps its coordinates in `i32`.
pub open spec fn translation_fits(vs: Seq<Point>, dx: int, dy: int) -> bool {
    forall|i: int| #![trigger vs[i]] 0 <= i < vs.len() ==> fits_i32(vs[i].x + dx) && fits_i32(vs[i].y + dy)
}

proof fn lemma_crossings_translated(vs: Seq<Point>, dx: int, dy: int, x: int, y: int, n: int)
    requires
        translation_fits(vs, dx, dy),
        n <= vs.len(),
    ensures
        crossings(translated(vs, dx, dy), x + dx, y + dy, n) == crossings(vs, x, y, n),
    decreases n,
{
    if n > 0 {
        lemma_crossings_translated(vs, dx, dy, x, y, n - 1);
        let w = translated(vs, dx, dy);
        let i = n - 1;
        let j = if i == 0 {
            vs.len() - 1
        } else {
            i - 1
        };
        assert(fits_i32(vs[i].x + dx) && fits_i32(vs[i].y + dy));
        assert(fits_i32(vs[j].x + dx) && fits_i32(vs[j].y + dy));
        assert(w[i].x == vs[i].x + dx && w[i].y == vs[i].y + dy);
        assert(w[j].x == vs[j].x + dx && w[j].y == vs[j].y + dy);
        assert((w[j].x - w[i].x) * ((y + dy) - w[i].y) == (vs[j].x - vs[i].x) * (y - vs[i].y));
        assert(edge_crosses(w[i], w[j], x + dx, y + dy) == edge_crosses(vs[i], vs[j], x, y));
    }
}

/// Moving a polygon and a point together does not change whether the point
/// lies inside.
pub proof fn lemma_inside_unchanged_by_translation(vs: Seq<Point>, dx: int, dy: int, x: int, y: int)
    requires
        translation_fits(vs, dx, dy),
    ensures
        point_in_polygon(translated(vs, dx, dy), x + dx, y + dy) == point_in_polygon(vs, x, y),
{
    lemma_crossings_translated(vs, dx, dy, x, y, vs.len() as int);
}

/// The vertex list started at vertex `r` (same polygon, same edges).
pub open spec fn rotated(vs: Seq<Point>, r: int) -> Seq<Point> {
    vs.skip(r) + vs.take(r)
}

/// 1 when edge `i` (from vertex `i - 1`, cyclically, to vertex `i`) crosses the ray.
spec fn edge_term(vs: Seq<Point>, x: int, y: int, i: int) -> int {
    let j = if i == 0 {
        vs.len() - 1
    } else {
        i - 1
    };
    if edge_crosses(vs[i], vs[j], x, y) {
        1
    } else {
        0
    }
}

/// The sum of the edge terms of edges `lo..hi`.
spec fn term_sum(vs: Seq<Point>, x: int, y: int, lo: int, hi: int) -> int
    decreases hi - lo,
{
    if hi <= lo {
        0
    } else {
        term_sum(vs, x, y, lo, hi - 1) + edge_term(vs, x, y, hi - 1)
    }
}

proof fn lemma_crossings_is_term_sum(vs: Seq<Point>, x: int, y: int, n: int)
    requires
        0 <= n,
    ensures
        crossings(vs, x, y, n) == term_sum(vs, x, y, 0, n),
    decreases n,
{
    if n > 0 {
        lemma_crossings_is_term_sum(vs, x, y, n - 1);
    }
}

proof fn lemma_term_sum_split(vs: Seq<Point>, x: int, y: int, lo: int, mid: int, hi: int)
    requires
        lo <= mid <= hi,
    ensures
        term_sum(vs, x, y, lo, hi) == term_sum(vs, x, y, lo, mid) + term_sum(vs, x, y, mid, hi),
    decreases hi - mid,
{
    if hi > mid {
        lemma_term_sum_split(vs, x, y, lo, mid, hi - 1);
    }
}

/// The terms of the rotated list are those of the list, shifted by `r`.
proof fn lemma_term_sum_shift(vs: Seq<Point>, r: int, x: int, y: int, lo: int, hi: int, off: int)
    requires
        0 < r < vs.len(),
        0 <= lo <= hi <= vs.len(),
        0 <= lo + off,
        hi + off <= vs.len(),
        forall|i: int| lo <= i < hi ==> #[trigger] edge_term(rotated(vs, r), x, y, i) == edge_term(vs, x, y, i + off),
    ensures
        term_sum(rotated(vs, r), x, y, lo, hi) == term_sum(vs, x, y, lo + off, hi + off),
    decreases hi - lo,
{
    if hi > lo {
        lemma_term_sum_shift(vs, r, x, y, lo, hi - 1, off);
        assert(edge_term(rotated(vs, r), x, y, hi - 1) == edge_term(vs, x, y, hi - 1 + off));
    }
}

/// Starting the vertex list at another vertex does not change whether a
/// point lies inside: the polygon has the same edges.
pub proof fn lemma_inside_unchanged_by_rotation(vs: Seq<Point>, r: int, x: int, y: int)
    requires
        0 <= r < vs.len(),
    ensures
        point_in_polygon(rotated(vs, r), x, y) == point_in_polygon(vs, x, y),
{
    let len = vs.len() as int;
    let w = rotated(vs, r);
    if r == 0 {
        assert(w =~= vs);
    } else {
        assert(w.len() == len);
        assert forall|i: int| 0 <= i < len implies #[trigger] w[i] == vs[if i < len - r {
            i + r
        } else {
            i + r - len
        }] by {
            if i < len - r {
                assert(w[i] == vs.skip(r)[i]);
            } else {
                assert(w[i] == vs.take(r)[i - (len - r)]);
            }
        }
        // Edges 1..len-r of the rotation are edges r+1..len of the list;
        // edge 0 of the rotation is edge r; edges len-r..len are edges 0..r.
        assert forall|i: int| 1 <= i < len - r implies #[trigger] edge_term(w, x, y, i) == edge_term(
            vs,
            x,
            y,
            i + r,
        ) by {
            assert(w[i] == vs[i + r]);
            assert(w[i - 1] == vs[i - 1 + r]);
        }
        assert forall|i: int| len - r <= i < len implies #[trigger] edge_term(w, x, y, i) == edge_term(
            vs,
            x,
            y,
            i - (len - r),
        ) by {
            assert(w[i] == vs[i + r - len]);
            if i == len - r {
                assert(w[i - 1] == vs[len - 1]);
            } else {
                assert(w[i - 1] == vs[i - 1 + r - len]);
            }
        }
        assert(edge_term(w, x, y, 0) == edge_term(vs, x, y, r)) by {
            assert(w[0] == vs[r]);
            assert(w[len - 1] == vs[r - 1]);
        }
        lemma_crossings_is_term_sum(w, x, y, len);
        lemma_crossings_is_term_sum(vs, x, y, len);
        lemma_term_sum_split(w, x, y, 0, 1, len - r);
        lemma_term_sum_split(w, x, y, 0, len - r, len);
        lemma_term_sum_split(vs, x, y, 0, r, len);
        lemma_term_sum_split(vs, x, y, r, r + 1, len);
        lemma_term_sum_shift(vs, r, x, y, 1, len - r, r);
        lemma_term_sum_shift(vs, r, x, y, len - r, len, -(len - r));
        assert(term_sum(w, x, y, 0, 0) == 0);
        assert(term_sum(w, x, y, 0, 1) == edge_term(w, x, y, 0));
        assert(term_sum(vs, x, y, r, r) == 0);
        assert(term_sum(vs, x, y, r, r + 1) == edge_term(vs, x, y, r));
    }
}

} // verus!
verus! {

/// When a circle's target (or, with none, its centre) lies in the disc, the
/// draws are centred on it: the point drawn is the target itself, or a point
/// of the disc whose coordinates are normal draws around the target's with
/// the circle's standard deviation.
pub proof fn lemma_circle_draws_centred_on_inside_target<
    N: Fn(i32, i32) -> i32,
    E: Fn(i64, i64, i32) -> (i32, i32),
>(center: Point, radius: i32, target: Option<Point>, std_dev: Option<i32>, p: Point, normal: &N, edge: &E)
    requires
        ({
            let t = (TargetArea::Circle { center, radius, target, std_dev }).circle_target();
            in_circle(center, radius as int, t.x as int, t.y as int)
        }),
        circle_point_drawn(TargetArea::Circle { center, radius, target, std_dev }, p, normal, edge),
    ensures
        ({
            let area = TargetArea::Circle { center, radius, target, std_dev };
            let t = area.circle_target();
            let s = area.circle_std_dev() as i32;
            ||| p == t
            ||| (in_circle(center, radius as int, p.x as int, p.y as int) && call_ensures(
                *normal,
                (t.x, s),
                p.x,
            ) && call_ensures(*normal, (t.y, s), p.y))
        }),
{
    let area = TargetArea::Circle { center, radius, target, std_dev };
    let t = area.circle_target();
    let (m, ds) = choose|m: Point, ds: Seq<(i32, i32)>|
        #![trigger circle_mean_ok(area, m, edge), circle_draws_end(area, m, ds, p, normal)]
        circle_mean_ok(area, m, edge) && circle_draws_end(area, m, ds, p, normal);
    assert(m == t);
    let last = ds.len() - 1;
    assert(ds.last() == ds[last]);
    assert(drawn_around(normal, m, area.circle_std_dev() as i32, ds));
    assert(call_ensures(*normal, (m.x, area.circle_std_dev() as i32), ds[last].0));
}

/// With a draw that returns its mean (a standard deviation of zero, say), a
/// circle whose target lies in the disc yields exactly the target.
pub proof fn lemma_circle_exact_draws_give_inside_target<
    N: Fn(i32, i32) -> i32,
    E: Fn(i64, i64, i32) -> (i32, i32),
>(center: Point, radius: i32, target: Option<Point>, std_dev: Option<i32>, p: Point, normal: &N, edge: &E)
    requires
        ({
            let t = (TargetArea::Circle { center, radius, target, std_dev }).circle_target();
            in_circle(center, radius as int, t.x as int, t.y as int)
        }),
        forall|m: i32, s: i32, d: i32| call_ensures(*normal, (m, s), d) ==> d == m,
        circle_point_drawn(TargetArea::Circle { center, radius, target, std_dev }, p, normal, edge),
    ensures
        p == (TargetArea::Circle { center, radius, target, std_dev }).circle_target(),
{
    lemma_circle_draws_centred_on_inside_target(center, radius, target, std_dev, p, normal, edge);
}

} // verus!
