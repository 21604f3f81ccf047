//! Integer geometry of the grid: points, cells, squared distance.
//!
//! A point has two `i32` coordinates in world units. A cell is a square of
//! side `scale`; the cell of a point is its coordinates divided by `scale`
//! and rounded down. Distances are compared by their squares, which are exact.

use vstd::prelude::*;

verus! {

/// A position in world units.
pub type Point = (i32, i32);

/// The coordinate of the cell that holds coordinate `x`: `x / scale`, rounded
/// down.
pub open spec fn cell_coord(scale: int, x: int) -> int {
    x / scale
}

/// The cell that holds point `p`.
pub open spec fn cell_of(scale: int, p: Point) -> (i32, i32) {
    (cell_coord(scale, p.0 as int) as i32, cell_coord(scale, p.1 as int) as i32)
}

/// The square of the distance between `a` and `b`.
pub open spec fn dist2(a: Point, b: Point) -> int {
    (a.0 - b.0) * (a.0 - b.0) + (a.1 - b.1) * (a.1 - b.1)
}

/// Whether `a` and `b` are at most `radius` apart.
pub open spec fn within(a: Point, b: Point, radius: int) -> bool {
    dist2(a, b) <= radius * radius
}

/// How many cells a length of `radius` can span: `radius / scale`, rounded up.
pub open spec fn reach(scale: int, radius: int) -> int {
    (radius + scale - 1) / scale
}

/// Whether `cell` lies in the square of cells that extends `k` cells from
/// `center` in each direction.
pub open spec fn in_box(center: (i32, i32), k: int, cell: (i32, i32)) -> bool {
    &&& center.0 - k <= cell.0 <= center.0 + k
    &&& center.1 - k <= cell.1 <= center.1 + k
}

/// Whether `a` comes strictly before `b` in the order of points: by the first
/// coordinate, then by the second.
pub open spec fn point_before(a: Point, b: Point) -> bool {
    a.0 < b.0 || (a.0 == b.0 && a.1 < b.1)
}

/// Rounding a negative number down: `-m / s` is minus `m / s` rounded up.
pub proof fn lemma_floor_of_negative(m: int, s: int)
    requires
        m >= 1,
        s >= 1,
    ensures
        (-m) / s == -((m + s - 1) / s),
        1 <= (m + s - 1) / s <= m,
{
    let q = (m + s - 1) / s;
    let r = (m + s - 1) % s;
    assert(m + s - 1 == s * q + r && 0 <= r < s) by (nonlinear_arith)
        requires
            q == (m + s - 1) / s,
            r == (m + s - 1) % s,
            s >= 1,
    ;
    assert(1 <= q <= m) by (nonlinear_arith)
        requires
            m + s - 1 == s * q + r,
            0 <= r < s,
            s >= 1,
            m >= 1,
    ;
    assert((-q) * s == -(s * q)) by (nonlinear_arith);
    vstd::arithmetic::div_mod::lemma_fundamental_div_mod_converse(-m, s, -q, s - 1 - r);
}

/// The cell coordinate of an `i32` is an `i32`, and it does not decrease when
/// the coordinate grows.
pub proof fn lemma_cell_coord(scale: int, x: int, y: int)
    requires
        scale >= 1,
        x <= y,
    ensures
        cell_coord(scale, x) <= cell_coord(scale, y),
        i32::MIN <= x <= i32::MAX ==> i32::MIN <= cell_coord(scale, x) <= i32::MAX,
        scale * cell_coord(scale, x) <= x < scale * cell_coord(scale, x) + scale,
{
    vstd::arithmetic::div_mod::lemma_div_is_ordered(x, y, scale);
    vstd::arithmetic::div_mod::lemma_fundamental_div_mod(x, scale);
    vstd::arithmetic::div_mod::lemma_mod_bound(x, scale);
    let q = x / scale;
    assert(scale * q <= x < scale * q + scale);
    if i32::MIN <= x <= i32::MAX {
        assert(i32::MIN <= q <= i32::MAX) by (nonlinear_arith)
            requires
                scale * q <= x < scale * q + scale,
                scale >= 1,
                i32::MIN <= x <= i32::MAX,
        ;
    }
}

/// Coordinates at most `radius` apart lie in cells at most `reach` apart.
pub proof fn lemma_coord_reach(scale: int, radius: int, x: int, y: int)
    requires
        scale >= 1,
        radius >= 0,
        x - radius <= y <= x + radius,
    ensures
        cell_coord(scale, x) - reach(scale, radius) <= cell_coord(scale, y) <= cell_coord(scale, x)
            + reach(scale, radius),
{
    let k = reach(scale, radius);
    let qx = cell_coord(scale, x);
    let qy = cell_coord(scale, y);
    lemma_cell_coord(scale, x, x);
    lemma_cell_coord(scale, y, y);
    vstd::arithmetic::div_mod::lemma_fundamental_div_mod(radius + scale - 1, scale);
    vstd::arithmetic::div_mod::lemma_mod_bound(radius + scale - 1, scale);
    assert(radius <= scale * k);
    assert(qy <= qx + k) by (nonlinear_arith)
        requires
            scale * qx <= x < scale * qx + scale,
            scale * qy <= y < scale * qy + scale,
            y <= x + radius,
            radius <= scale * k,
            scale >= 1,
    ;
    assert(qx - k <= qy) by (nonlinear_arith)
        requires
            scale * qx <= x < scale * qx + scale,
            scale * qy <= y < scale * qy + scale,
            x - radius <= y,
            radius <= scale * k,
            scale >= 1,
    ;
}

/// Points within `radius` of each other differ by at most `radius` in each
/// coordinate.
pub proof fn lemma_within_coords(a: Point, b: Point, radius: int)
    requires
        radius >= 0,
        within(a, b, radius),
    ensures
        a.0 - radius <= b.0 <= a.0 + radius,
        a.1 - radius <= b.1 <= a.1 + radius,
{
    let dx = a.0 - b.0;
    let dy = a.1 - b.1;
    assert(dx * dx + dy * dy <= radius * radius);
    assert(-radius <= dx <= radius && -radius <= dy <= radius) by (nonlinear_arith)
        requires
            dx * dx + dy * dy <= radius * radius,
            radius >= 0,
    ;
}

/// Points within `radius` of each other lie in cells at most `reach` apart
/// in each direction, whatever the scale.
pub proof fn lemma_within_box(scale: int, a: Point, b: Point, radius: int)
    requires
        scale >= 1,
        radius >= 0,
        within(a, b, radius),
    ensures
        in_box(cell_of(scale, a), reach(scale, radius), cell_of(scale, b)),
{
    lemma_within_coords(a, b, radius);
    lemma_coord_reach(scale, radius, a.0 as int, b.0 as int);
    lemma_coord_reach(scale, radius, a.1 as int, b.1 as int);
    lemma_cell_coord(scale, a.0 as int, a.0 as int);
    lemma_cell_coord(scale, a.1 as int, a.1 as int);
    lemma_cell_coord(scale, b.0 as int, b.0 as int);
    lemma_cell_coord(scale, b.1 as int, b.1 as int);
}

/// The squared distance is symmetric.
pub proof fn lemma_dist2_symmetric(a: Point, b: Point)
    ensures
        dist2(a, b) == dist2(b, a),
        dist2(a, b) >= 0,
{
    let dx = a.0 - b.0;
    let dy = a.1 - b.1;
    assert(dx * dx == (-dx) * (-dx)) by (nonlinear_arith);
    assert(dy * dy == (-dy) * (-dy)) by (nonlinear_arith);
    assert(dx * dx >= 0 && dy * dy >= 0) by (nonlinear_arith);
}

/// `x / scale`, rounded down.
pub fn coord_cell(scale: u32, x: i32) -> (c: i32)
    requires
        scale > 0,
    ensures
        c == cell_coord(scale as int, x as int),
{
    if x >= 0 {
        let q: u32 = (x as u32) / scale;
        q as i32
    } else {
        let m: u64 = (-(x as i64)) as u64;
        let s: u64 = scale as u64;
        let q: u64 = (m + s - 1) / s;
        proof {
            lemma_floor_of_negative(m as int, s as int);
        }
        (-(q as i64)) as i32
    }
}

/// The cell that holds `p` in a grid of cell size `scale`.
pub fn grid_cell(scale: u32, p: Point) -> (cell: (i32, i32))
    requires
        scale > 0,
    ensures
        cell == cell_of(scale as int, p),
{
    (coord_cell(scale, p.0), coord_cell(scale, p.1))
}

/// The absolute difference of two coordinates.
fn gap(a: i32, b: i32) -> (d: u64)
    ensures
        d == (if a >= b { a - b } else { b - a }),
        d < 0x1_0000_0000,
{
    if a >= b {
        (a as i64 - b as i64) as u64
    } else {
        (b as i64 - a as i64) as u64
    }
}

/// The square of the distance between `a` and `b`.
pub fn distance2(a: Point, b: Point) -> (d: u128)
    ensures
        d == dist2(a, b),
{
    let dx: u64 = gap(a.0, b.0);
    let dy: u64 = gap(a.1, b.1);
    proof {
        let x = a.0 - b.0;
        let y = a.1 - b.1;
        assert(dx * dx == x * x && dy * dy == y * y) by (nonlinear_arith)
            requires
                dx == (if x >= 0 { x } else { -x }),
                dy == (if y >= 0 { y } else { -y }),
        ;
        assert(dx * dx < 0x1_0000_0000_0000_0000 && dy * dy < 0x1_0000_0000_0000_0000)
            by (nonlinear_arith)
            requires
                0 <= dx < 0x1_0000_0000,
                0 <= dy < 0x1_0000_0000,
        ;
    }
    (dx as u128) * (dx as u128) + (dy as u128) * (dy as u128)
}

/// The square of a radius.
pub fn radius2(radius: u32) -> (r2: u128)
    ensures
        r2 == radius * radius,
{
    proof {
        assert(radius * radius < 0x1_0000_0000_0000_0000) by (nonlinear_arith)
            requires
                0 <= radius < 0x1_0000_0000,
        ;
    }
    (radius as u128) * (radius as u128)
}

/// How many cells a length of `radius` can span.
pub fn cell_reach(scale: u32, radius: u32) -> (k: u32)
    requires
        scale > 0,
    ensures
        k == reach(scale as int, radius as int),
{
    let k: u64 = (radius as u64 + scale as u64 - 1) / (scale as u64);
    proof {
        let n = radius as int + scale as int - 1;
        let s = scale as int;
        vstd::arithmetic::div_mod::lemma_fundamental_div_mod(n, s);
        vstd::arithmetic::div_mod::lemma_mod_bound(n, s);
        assert(n / s <= radius) by (nonlinear_arith)
            requires
                n == s * (n / s) + n % s,
                0 <= n % s < s,
                n == radius + s - 1,
                s >= 1,
                radius >= 0,
        ;
    }
    k as u32
}

/// Whether `a` comes strictly before `b` in the order of points.
pub fn comes_before(a: Point, b: Point) -> (before: bool)
    ensures
        before == point_before(a, b),
{
    a.0 < b.0 || (a.0 == b.0 && a.1 < b.1)
}

/// The number of world units in one unit of length. A direction is a vector
/// of this length.
pub const UNIT: i32 = 1024;

/// `x` brought into the range of `i32`.
pub open spec fn clamped(x: int) -> i32 {
    if x < i32::MIN {
        i32::MIN
    } else if x > i32::MAX {
        i32::MAX
    } else {
        x as i32
    }
}

/// `x` brought into the range of `i32`.
pub fn clamp(x: i64) -> (c: i32)
    ensures
        c == clamped(x as int),
{
    if x < i32::MIN as i64 {
        i32::MIN
    } else if x > i32::MAX as i64 {
        i32::MAX
    } else {
        x as i32
    }
}

/// The vector from `from` to `to`, each coordinate brought into range.
pub open spec fn offset(from: Point, to: Point) -> Point {
    (clamped(to.0 - from.0), clamped(to.1 - from.1))
}

/// The vector from `from` to `to`.
pub fn vector(from: Point, to: Point) -> (v: Point)
    ensures
        v == offset(from, to),
{
    (clamp(to.0 as i64 - from.0 as i64), clamp(to.1 as i64 - from.1 as i64))
}

/// The point `p` moved by `v`, each coordinate brought into range.
pub open spec fn shifted(p: Point, v: Point) -> Point {
    (clamped(p.0 + v.0), clamped(p.1 + v.1))
}

/// The point `p` moved by `v`.
pub fn shift(p: Point, v: Point) -> (q: Point)
    ensures
        q == shifted(p, v),
{
    (clamp(p.0 as i64 + v.0 as i64), clamp(p.1 as i64 + v.1 as i64))
}

/// The dot product of two vectors.
pub open spec fn dot(a: Point, b: Point) -> int {
    a.0 * b.0 + a.1 * b.1
}

/// The dot product of two vectors.
pub fn dot_product(a: Point, b: Point) -> (d: i128)
    ensures
        d == dot(a, b),
        -0x8000_0000_0000_0000 <= d <= 0x8000_0000_0000_0000,
{
    proof {
        assert(-0x4000_0000_0000_0000 <= a.0 * b.0 <= 0x4000_0000_0000_0000 && -0x4000_0000_0000_0000
            <= a.1 * b.1 <= 0x4000_0000_0000_0000) by (nonlinear_arith)
            requires
                -0x8000_0000 <= a.0 <= 0x7fff_ffff,
                -0x8000_0000 <= a.1 <= 0x7fff_ffff,
                -0x8000_0000 <= b.0 <= 0x7fff_ffff,
                -0x8000_0000 <= b.1 <= 0x7fff_ffff,
        ;
    }
    (a.0 as i128) * (b.0 as i128) + (a.1 as i128) * (b.1 as i128)
}

/// Whether `r` is the square root of `n`, rounded down.
pub open spec fn is_root(n: int, r: int) -> bool {
    0 <= r && r * r <= n < (r + 1) * (r + 1)
}

/// The square root of `n`, rounded down.
pub fn isqrt(n: u128) -> (r: u64)
    ensures
        is_root(n as int, r as int),
{
    let mut lo: u128 = 0;
    let mut hi: u128 = 0x1_0000_0000_0000_0000;
    proof {
        assert(n < 0x1_0000_0000_0000_0000 * 0x1_0000_0000_0000_0000) by (nonlinear_arith)
            requires
                n <= 0xffff_ffff_ffff_ffff_ffff_ffff_ffff_ffff,
        ;
    }
    while hi - lo > 1
        invariant
            0 <= lo < hi <= 0x1_0000_0000_0000_0000,
            lo * lo <= n < hi * hi,
        decreases hi - lo,
    {
        let mid: u128 = lo + (hi - lo) / 2;
        proof {
            assert(mid * mid <= 0xffff_ffff_ffff_ffff * 0xffff_ffff_ffff_ffff) by (nonlinear_arith)
                requires
                    0 <= mid <= 0xffff_ffff_ffff_ffff,
            ;
        }
        if mid * mid <= n {
            lo = mid;
        } else {
            hi = mid;
        }
    }
    lo as u64
}

/// One coordinate of a direction: `d` times `UNIT` over `len`, rounded
/// toward zero.
pub open spec fn unit_part(d: int, len: int) -> int {
    if d >= 0 {
        (d * UNIT) / len
    } else {
        -((-d * UNIT) / len)
    }
}

/// Whether `dir` is the direction from `from` to `to`: the vector between
/// them scaled to the length `UNIT`, each coordinate rounded toward zero, and
/// the zero vector if the two points are the same. The length of the vector
/// is its root rounded down.
pub open spec fn is_direction(from: Point, to: Point, dir: Point) -> bool {
    if from == to {
        dir == (0i32, 0i32)
    } else {
        exists|len: int| #[trigger]
            is_root(dist2(from, to), len) && len >= 1 && dir.0 == unit_part(to.0 - from.0, len) && dir.1
                == unit_part(to.1 - from.1, len)
    }
}

/// One coordinate of a direction.
fn part(d: i64, len: u64) -> (p: i32)
    requires
        len >= 1,
        -0x1_0000_0000 < d < 0x1_0000_0000,
        d <= len,
        -d <= len,
    ensures
        p == unit_part(d as int, len as int),
{
    let m: u64 = if d >= 0 { d as u64 } else { (-d) as u64 };
    proof {
        assert(0 <= m * UNIT < 0x1_0000_0000 * 1024) by (nonlinear_arith)
            requires
                0 <= m < 0x1_0000_0000,
                UNIT == 1024,
        ;
    }
    let q: u64 = (m * (UNIT as u64)) / len;
    proof {
        let n = m * UNIT;
        vstd::arithmetic::div_mod::lemma_fundamental_div_mod(n, len as int);
        vstd::arithmetic::div_mod::lemma_mod_bound(n, len as int);
        assert(0 <= n / (len as int) <= 1024) by (nonlinear_arith)
            requires
                n == len * (n / (len as int)) + n % (len as int),
                0 <= n % (len as int) < len,
                n == m * 1024,
                0 <= m <= len,
                len >= 1,
        ;
    }
    if d >= 0 {
        q as i32
    } else {
        -(q as i32)
    }
}

/// The direction from `from` to `to`.
pub fn unit_toward(from: Point, to: Point) -> (dir: Point)
    ensures
        is_direction(from, to, dir),
{
    if from.0 == to.0 && from.1 == to.1 {
        return (0, 0);
    }
    let d2 = distance2(from, to);
    let len = isqrt(d2);
    let dx: i64 = to.0 as i64 - from.0 as i64;
    let dy: i64 = to.1 as i64 - from.1 as i64;
    proof {
        lemma_dist2_symmetric(from, to);
        assert(dist2(from, to) == dx * dx + dy * dy) by (nonlinear_arith)
            requires
                dist2(from, to) == (from.0 - to.0) * (from.0 - to.0) + (from.1 - to.1) * (from.1 - to.1),
                dx == to.0 - from.0,
                dy == to.1 - from.1,
        ;
        assert(len >= 1 && dx <= len && -dx <= len && dy <= len && -dy <= len) by (nonlinear_arith)
            requires
                len * len <= dx * dx + dy * dy < (len + 1) * (len + 1),
                len >= 0,
                dx != 0 || dy != 0,
        ;
    }
    let dir = (part(dx, len), part(dy, len));
    proof {
        assert(is_root(dist2(from, to), len as int));
    }
    dir
}

/// The multiple of `cell` nearest to `x`; of two equally near ones the one
/// farther from zero.
pub open spec fn snapped(x: int, cell: int) -> int {
    if x >= 0 {
        cell * ((2 * x + cell) / (2 * cell))
    } else {
        -(cell * ((-2 * x + cell) / (2 * cell)))
    }
}

/// One coordinate snapped to the multiples of `cell`.
fn snap(x: i32, cell: u32) -> (s: i32)
    requires
        cell > 0,
    ensures
        s == clamped(snapped(x as int, cell as int)),
{
    let m: u64 = if x >= 0 { x as u64 } else { (-(x as i64)) as u64 };
    let c: u64 = cell as u64;
    let steps: u64 = (2 * m + c) / (2 * c);
    proof {
        let n = 2 * m + c;
        vstd::arithmetic::div_mod::lemma_fundamental_div_mod(n as int, 2 * c);
        vstd::arithmetic::div_mod::lemma_mod_bound(n as int, 2 * c);
        assert(0 <= c * steps <= 0x2_0000_0000) by (nonlinear_arith)
            requires
                n == (2 * c) * steps + n % (2 * c),
                0 <= n % (2 * c),
                n == 2 * m + c,
                0 <= m <= 0x8000_0000,
                1 <= c <= 0xffff_ffff,
        ;
    }
    let reach: u64 = c * steps;
    if x >= 0 {
        clamp(reach as i64)
    } else {
        clamp(-(reach as i64))
    }
}

/// The point of the lattice with steps `cell` that is nearest to `p`, each
/// coordinate brought into range.
pub fn snap_to_grid(p: Point, cell: (u32, u32)) -> (q: Point)
    requires
        cell.0 > 0,
        cell.1 > 0,
    ensures
        q == (clamped(snapped(p.0 as int, cell.0 as int)), clamped(snapped(p.1 as int, cell.1 as int))),
{
    (snap(p.0, cell.0), snap(p.1, cell.1))
}

} // verus!
