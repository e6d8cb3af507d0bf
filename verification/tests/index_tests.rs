use geo::algorithm::contains::Contains;
use geo::algorithm::intersects::Intersects;
use geo_types::{LineString, Polygon};

use gridstats::codec::render_assignment;
use gridstats::geom::{cell_center, cell_ring, sq_dist};
use gridstats::index::{nearest_candidates, select_assignments, CandidateBuffer, CellTest, Region};

fn micro(v: f64) -> i64 {
    (v * 1_000_000.0).round() as i64
}

fn doubled_micro(v: f64) -> i64 {
    (v * 2_000_000.0).round() as i64
}

fn ring_to_polygon(ring: &[(i64, i64)]) -> Polygon<f64> {
    let pts: Vec<(f64, f64)> = ring
        .iter()
        .map(|&(x, y)| (x as f64 / 1_000_000.0, y as f64 / 1_000_000.0))
        .collect();
    Polygon::new(LineString::from(pts), vec![])
}

fn rect_polygon(x0: f64, y0: f64, x1: f64, y1: f64) -> Polygon<f64> {
    Polygon::new(
        LineString::from(vec![(x0, y0), (x1, y0), (x1, y1), (x0, y1), (x0, y0)]),
        vec![],
    )
}

fn geometry_tests(cell: &Polygon<f64>, region: &Polygon<f64>) -> CellTest {
    CellTest {
        boundary_intersects: region.intersects(cell),
        cell_contains_region: cell.contains(region),
        region_contains_cell: region.contains(cell),
    }
}

/// Runs the verified per-cell pipeline for one cell, with the exact
/// geometry tests evaluated by the polygon library, and returns the emitted
/// assignment lines.
fn cell_lines(
    lons: &Vec<i64>,
    lats: &Vec<i64>,
    regions: &Vec<Region>,
    polys: &Vec<Polygon<f64>>,
    x: usize,
    y: usize,
    cap: usize,
) -> Vec<Vec<u8>> {
    let ring = cell_ring(lons, lats, x, y);
    let cell_poly = ring_to_polygon(&ring);
    let (cx2, cy2) = cell_center(lons, lats, x, y);
    let buf: CandidateBuffer = nearest_candidates(regions, cx2, cy2, cap);
    let tests: Vec<CellTest> = buf
        .entries
        .iter()
        .map(|c| geometry_tests(&cell_poly, &polys[c.region]))
        .collect();
    let assigned = select_assignments(&buf, &tests);
    assigned
        .iter()
        .map(|&r| render_assignment(x, y, &regions[r].id))
        .collect()
}

#[test]
fn cell_ring_applies_wrap_correction() {
    let lons = vec![micro(10.0), micro(11.0)];
    let lats = vec![micro(50.0), micro(51.0)];
    let ring = cell_ring(&lons, &lats, 0, 0);
    assert_eq!(
        ring,
        vec![
            (micro(-350.0), micro(50.0)),
            (micro(-349.0), micro(50.0)),
            (micro(-349.0), micro(51.0)),
            (micro(-350.0), micro(51.0)),
            (micro(-350.0), micro(50.0)),
        ]
    );
    let (cx2, cy2) = cell_center(&lons, &lats, 0, 0);
    assert_eq!(cx2, doubled_micro(-349.5));
    assert_eq!(cy2, doubled_micro(50.5));
}

#[test]
fn sq_dist_is_exact() {
    assert_eq!(sq_dist(3, 4, 0, 0), 25);
    assert_eq!(sq_dist(-3, 4, 0, 0), 25);
    assert_eq!(sq_dist(7, 7, 7, 7), 0);
}

#[test]
fn covering_region_is_assigned_to_its_cell() {
    // a 2x2 grid; one region whose polygon exactly covers cell (0,0)'s
    // rectangle (in the signed convention, after the wrap correction)
    let lons = vec![micro(10.0), micro(11.0)];
    let lats = vec![micro(50.0), micro(51.0)];
    let region_poly = rect_polygon(-350.0, 50.0, -349.0, 51.0);
    let regions = vec![Region {
        id: b"R1".to_vec(),
        cx2: doubled_micro(-349.5),
        cy2: doubled_micro(50.5),
    }];
    let polys = vec![region_poly];
    let lines = cell_lines(&lons, &lats, &regions, &polys, 0, 0, 1);
    assert_eq!(lines, vec![b"0 0 R1".to_vec()]);
}

#[test]
fn strictly_covered_cell_is_the_only_assignment() {
    // a region strictly inside cell (0,0)'s rectangle touches no other
    // cell, so the whole grid produces exactly one line
    let lons = vec![micro(10.0), micro(11.0)];
    let lats = vec![micro(50.0), micro(51.0)];
    let region_poly = rect_polygon(-349.75, 50.25, -349.25, 50.75);
    let regions = vec![Region {
        id: b"R1".to_vec(),
        cx2: doubled_micro(-349.5),
        cy2: doubled_micro(50.5),
    }];
    let polys = vec![region_poly];
    let mut all: Vec<Vec<u8>> = Vec::new();
    for x in 0..2 {
        for y in 0..2 {
            all.extend(cell_lines(&lons, &lats, &regions, &polys, x, y, 1));
        }
    }
    assert_eq!(all, vec![b"0 0 R1".to_vec()]);
}

#[test]
fn region_strictly_containing_cell_is_assigned() {
    // containment predicate correctness: a region whose boundary strictly
    // contains the cell rectangle appears among the cell's assignments
    let lons = vec![micro(10.0), micro(11.0)];
    let lats = vec![micro(50.0), micro(51.0)];
    let region_poly = rect_polygon(-352.0, 48.0, -347.0, 53.0);
    let regions = vec![Region {
        id: b"BIG".to_vec(),
        cx2: doubled_micro(-349.5),
        cy2: doubled_micro(50.5),
    }];
    let polys = vec![region_poly];
    let lines = cell_lines(&lons, &lats, &regions, &polys, 0, 0, 5);
    assert_eq!(lines, vec![b"0 0 BIG".to_vec()]);
}

#[test]
fn assignments_never_exceed_buffer_size() {
    // ten regions all containing the cell, capacity three: at most three
    // assignments come out, and they are the three nearest centroids
    let lons = vec![micro(10.0), micro(11.0)];
    let lats = vec![micro(50.0), micro(51.0)];
    let mut regions: Vec<Region> = Vec::new();
    let mut polys: Vec<Polygon<f64>> = Vec::new();
    for k in 0..10 {
        let side = 2.0 + k as f64;
        polys.push(rect_polygon(-349.5 - side, 50.5 - side, -349.5 + side, 50.5 + side));
        regions.push(Region {
            id: format!("G{}", k).into_bytes(),
            // centroids drift east so the order is k = 0, 1, 2, ...
            cx2: doubled_micro(-349.5 + k as f64 * 0.1),
            cy2: doubled_micro(50.5),
        });
    }
    let lines = cell_lines(&lons, &lats, &regions, &polys, 0, 0, 3);
    assert_eq!(
        lines,
        vec![b"0 0 G0".to_vec(), b"0 0 G1".to_vec(), b"0 0 G2".to_vec()]
    );
}

#[test]
fn candidate_buffer_keeps_nearest_sorted() {
    let regions = vec![
        Region { id: b"A".to_vec(), cx2: 100, cy2: 0 },
        Region { id: b"B".to_vec(), cx2: 10, cy2: 0 },
        Region { id: b"C".to_vec(), cx2: 50, cy2: 0 },
        Region { id: b"D".to_vec(), cx2: 20, cy2: 0 },
    ];
    let buf = nearest_candidates(&regions, 0, 0, 2);
    let kept: Vec<usize> = buf.entries.iter().map(|c| c.region).collect();
    assert_eq!(kept, vec![1, 3]);
    assert!(buf.entries[0].dist <= buf.entries[1].dist);
}

#[test]
fn no_region_means_no_assignment() {
    let regions: Vec<Region> = Vec::new();
    let buf = nearest_candidates(&regions, 0, 0, 5);
    assert_eq!(buf.entries.len(), 0);
    let tests: Vec<CellTest> = Vec::new();
    let assigned = select_assignments(&buf, &tests);
    assert_eq!(assigned.len(), 0);
}

#[test]
fn containing_region_beyond_the_candidates_is_dropped() {
    // the candidate buffer bounds the exact tests: with capacity one, a
    // huge region containing the cell loses to a nearer, disjoint one and
    // never reaches the geometry tests, so the cell gets no assignment
    let lons = vec![micro(10.0), micro(11.0)];
    let lats = vec![micro(50.0), micro(51.0)];
    let near_disjoint = rect_polygon(-348.95, 50.4, -348.75, 50.6);
    let huge_containing = rect_polygon(-360.0, 40.0, -340.0, 60.0);
    let regions = vec![
        Region {
            id: b"NEAR".to_vec(),
            cx2: doubled_micro(-348.85),
            cy2: doubled_micro(50.5),
        },
        Region {
            id: b"HUGE".to_vec(),
            cx2: doubled_micro(-350.0),
            cy2: doubled_micro(50.0),
        },
    ];
    let polys = vec![near_disjoint, huge_containing];
    let lines = cell_lines(&lons, &lats, &regions, &polys, 0, 0, 1);
    assert_eq!(lines, Vec::<Vec<u8>>::new());
    // with room for both candidates the containing region is assigned
    let lines = cell_lines(&lons, &lats, &regions, &polys, 0, 0, 2);
    assert_eq!(lines, vec![b"0 0 HUGE".to_vec()]);
}
