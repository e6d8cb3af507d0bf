//! Integer model of the grid geometry.
//!
//! Coordinates are held in millionths of a degree, so that the cell rectangle,
//! the wrap correction and the centroid-distance ordering are exact integer
//! arithmetic.  Cell centers are held in doubled micro-degrees so that the
//! midpoint of a rectangle needs no division.

use vstd::prelude::*;

verus! {

/// Longitude values of datasets indexed on [0, 360) are mapped to the signed
/// convention of the polygon dataset by subtracting one full turn.
pub const WRAP_MICRO: i64 = 360_000_000;

/// Bound on any single axis coordinate handed to the library, in
/// micro-degrees (covers every valid longitude or latitude with slack).
pub const COORD_LIMIT: i64 = 2_000_000_000;

/// Bound on a doubled cell-center or centroid coordinate.
pub const CENTER_LIMIT: i64 = 10_000_000_000;

/// A coordinate axis is valid when it has at least two values (so that the
/// cell size `delta = axis[1] - axis[0]` is defined) and every value is a
/// plausible angle.
pub open spec fn axis_ok(a: Seq<i64>) -> bool {
    &&& a.len() >= 2
    &&& forall|i: int| 0 <= i < a.len() ==> -COORD_LIMIT <= #[trigger] a[i] <= COORD_LIMIT
}

/// The angular cell size of an axis: the spacing between its first two values.
pub open spec fn delta(a: Seq<i64>) -> int {
    a[1] - a[0]
}

/// The west edge of the cell column `x`, after the longitude wrap correction.
pub open spec fn cell_lon(lons: Seq<i64>, x: int) -> int {
    lons[x] - WRAP_MICRO
}

/// The south edge of the cell row `y`.
pub open spec fn cell_lat(lats: Seq<i64>, y: int) -> int {
    lats[y] as int
}

/// The closed outer ring of the geographic rectangle of cell `(x, y)`:
/// the corner points in counter-clockwise order, first corner repeated last.
pub open spec fn cell_ring_spec(lons: Seq<i64>, lats: Seq<i64>, x: int, y: int) -> Seq<(int, int)> {
    let lon = cell_lon(lons, x);
    let lat = cell_lat(lats, y);
    let dlon = delta(lons);
    let dlat = delta(lats);
    seq![
        (lon, lat),
        (lon + dlon, lat),
        (lon + dlon, lat + dlat),
        (lon, lat + dlat),
        (lon, lat),
    ]
}

/// The center of cell `(x, y)` in doubled micro-degrees: twice the midpoint
/// of the cell rectangle.
pub open spec fn cell_center_spec(lons: Seq<i64>, lats: Seq<i64>, x: int, y: int) -> (int, int) {
    (2 * cell_lon(lons, x) + delta(lons), 2 * cell_lat(lats, y) + delta(lats))
}

/// Squared Euclidean distance between two points.  Squaring keeps the
/// comparison exact in integers; ordering by it equals ordering by distance.
pub open spec fn sq_dist_spec(ax: int, ay: int, bx: int, by: int) -> int {
    (ax - bx) * (ax - bx) + (ay - by) * (ay - by)
}

/// Builds the outer ring of the geographic rectangle of cell `(x, y)` from
/// the two coordinate axes, applying the longitude wrap correction.
pub fn cell_ring(lons: &Vec<i64>, lats: &Vec<i64>, x: usize, y: usize) -> (r: Vec<(i64, i64)>)
    requires
        axis_ok(lons@),
        axis_ok(lats@),
        x < lons@.len(),
        y < lats@.len(),
    ensures
        r@.len() == 5,
        forall|k: int|
            0 <= k < 5 ==> (#[trigger] r@[k]).0 == cell_ring_spec(lons@, lats@, x as int, y as int)[k].0
                && r@[k].1 == cell_ring_spec(lons@, lats@, x as int, y as int)[k].1,
{
    let lon = lons[x] - WRAP_MICRO;
    let lat = lats[y];
    let dlon = lons[1] - lons[0];
    let dlat = lats[1] - lats[0];
    let mut r: Vec<(i64, i64)> = Vec::new();
    r.push((lon, lat));
    r.push((lon + dlon, lat));
    r.push((lon + dlon, lat + dlat));
    r.push((lon, lat + dlat));
    r.push((lon, lat));
    r
}

/// Computes the cell center in doubled micro-degrees.
pub fn cell_center(lons: &Vec<i64>, lats: &Vec<i64>, x: usize, y: usize) -> (c: (i64, i64))
    requires
        axis_ok(lons@),
        axis_ok(lats@),
        x < lons@.len(),
        y < lats@.len(),
    ensures
        c.0 == cell_center_spec(lons@, lats@, x as int, y as int).0,
        c.1 == cell_center_spec(lons@, lats@, x as int, y as int).1,
        -CENTER_LIMIT <= c.0 <= CENTER_LIMIT,
        -CENTER_LIMIT <= c.1 <= CENTER_LIMIT,
{
    let cx = 2 * (lons[x] - WRAP_MICRO) + (lons[1] - lons[0]);
    let cy = 2 * lats[y] + (lats[1] - lats[0]);
    (cx, cy)
}

/// Squared Euclidean distance between two doubled-coordinate points.
pub fn sq_dist(ax: i64, ay: i64, bx: i64, by: i64) -> (d: u128)
    requires
        -CENTER_LIMIT <= ax <= CENTER_LIMIT,
        -CENTER_LIMIT <= ay <= CENTER_LIMIT,
        -CENTER_LIMIT <= bx <= CENTER_LIMIT,
        -CENTER_LIMIT <= by <= CENTER_LIMIT,
    ensures
        d == sq_dist_spec(ax as int, ay as int, bx as int, by as int),
{
    let dx: i128 = (ax as i128) - (bx as i128);
    let dy: i128 = (ay as i128) - (by as i128);
    proof {
        assert(dx * dx >= 0 && dx * dx <= (20_000_000_000 as int) * (20_000_000_000 as int))
            by (nonlinear_arith)
            requires -20_000_000_000 <= dx <= 20_000_000_000;
        assert(dy * dy >= 0 && dy * dy <= (20_000_000_000 as int) * (20_000_000_000 as int))
            by (nonlinear_arith)
            requires -20_000_000_000 <= dy <= 20_000_000_000;
    }
    let sx: i128 = dx * dx;
    let sy: i128 = dy * dy;
    (sx + sy) as u128
}

} // verus!
