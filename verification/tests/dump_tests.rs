use gridstats::dump::{aggregate_all, region_extrema, task_extrema, times_to_unix};

/// Order-preserving key of a sample value: the total order on keys is the
/// numeric order on the values, and equal values have equal keys.
fn key_of(v: f32) -> u32 {
    let b = v.to_bits();
    if b & 0x8000_0000 == 0 {
        b | 0x8000_0000
    } else {
        !b
    }
}

fn val_of(k: u32) -> f32 {
    if k & 0x8000_0000 != 0 {
        f32::from_bits(k & 0x7FFF_FFFF)
    } else {
        f32::from_bits(!k)
    }
}

fn keys(vals: &[f32]) -> Vec<u32> {
    vals.iter().map(|&v| key_of(v)).collect()
}

#[test]
fn key_embedding_is_order_preserving() {
    for &a in [-9999.0f32, -1.5, -0.0, 0.0, 0.25, 3.5, f32::MAX, f32::MIN].iter() {
        assert_eq!(val_of(key_of(a)), a);
    }
    // negative zero is the one value pair whose keys order more finely
    // than the values themselves, so it stays out of the order check
    let vals = [-9999.0f32, -1.5, 0.0, 0.25, 3.5, f32::MAX, f32::MIN];
    for &a in vals.iter() {
        for &b in vals.iter() {
            assert_eq!(a < b, key_of(a) < key_of(b));
        }
    }
}

#[test]
fn fill_values_are_excluded_from_extrema() {
    // one feature, fill value -9999.0, a region of two cells holding
    // [-9999.0, 3.5] at one time step: the record reports min=3.5, max=3.5
    let buf = keys(&[-9999.0, 3.5]);
    let cells: Vec<(usize, usize)> = vec![(0, 0), (1, 0)];
    let (mn, mx) = region_extrema(
        &buf,
        key_of(-9999.0),
        &cells,
        0,
        1,
        2,
        key_of(f32::MAX),
        key_of(f32::MIN),
    );
    assert_eq!(val_of(mn), 3.5);
    assert_eq!(val_of(mx), 3.5);
}

#[test]
fn extrema_without_fill_matches() {
    // values [1.0, 2.0, 3.0], no fill matches: min=1.0, max=3.0
    let buf = keys(&[1.0, 2.0, 3.0]);
    let cells: Vec<(usize, usize)> = vec![(0, 0), (1, 0), (2, 0)];
    let (mn, mx) = region_extrema(
        &buf,
        key_of(-9999.0),
        &cells,
        0,
        1,
        3,
        key_of(f32::MAX),
        key_of(f32::MIN),
    );
    assert_eq!(val_of(mn), 1.0);
    assert_eq!(val_of(mx), 3.0);
}

#[test]
fn all_fill_region_reports_the_sentinels() {
    // every sample equals the fill value: the initial sentinels come back
    // unchanged, the documented edge case
    let buf = keys(&[-9999.0, -9999.0]);
    let cells: Vec<(usize, usize)> = vec![(0, 0), (1, 0)];
    let (mn, mx) = region_extrema(
        &buf,
        key_of(-9999.0),
        &cells,
        0,
        1,
        2,
        key_of(f32::MAX),
        key_of(f32::MIN),
    );
    assert_eq!(val_of(mn), f32::MAX);
    assert_eq!(val_of(mx), f32::MIN);
}

#[test]
fn task_interleaves_min_max_per_feature() {
    let buffers = vec![keys(&[1.0, 2.0]), keys(&[7.0, -3.0])];
    let fills = vec![key_of(-9999.0), key_of(-9999.0)];
    let cells: Vec<(usize, usize)> = vec![(0, 0), (1, 0)];
    let stats = task_extrema(
        &buffers,
        &fills,
        &cells,
        0,
        1,
        2,
        key_of(f32::MAX),
        key_of(f32::MIN),
    );
    let decoded: Vec<f32> = stats.iter().map(|&k| val_of(k)).collect();
    assert_eq!(decoded, vec![1.0, 2.0, -3.0, 7.0]);
}

#[test]
fn chunk_size_does_not_change_the_records() {
    // one feature over a 2x2 grid and five time steps; two regions
    let grid: Vec<f32> = (0..20).map(|v| v as f32).collect();
    let data = vec![keys(&grid)];
    let fills = vec![key_of(-9999.0)];
    let regions = vec![
        (b"A".to_vec(), vec![(0usize, 0usize), (1, 1)]),
        (b"B".to_vec(), vec![(0usize, 1usize)]),
    ];
    let runs: Vec<Vec<(usize, usize, Vec<u32>)>> = [1usize, 2, 3, 250]
        .iter()
        .map(|&n| {
            aggregate_all(
                &data,
                &fills,
                &regions,
                5,
                2,
                2,
                n,
                key_of(f32::MAX),
                key_of(f32::MIN),
            )
            .into_iter()
            .map(|r| (r.time_index, r.region_index, r.stats))
            .collect()
        })
        .collect();
    assert_eq!(runs[0].len(), 10);
    assert_eq!(runs[0], runs[1]);
    assert_eq!(runs[0], runs[2]);
    assert_eq!(runs[0], runs[3]);
}

#[test]
fn aggregate_records_hold_the_expected_extrema() {
    // samples laid out time-major: value of cell (x,y) at time t is
    // 100*t + 10*y + x
    let mut grid: Vec<f32> = Vec::new();
    for t in 0..3 {
        for y in 0..2 {
            for x in 0..2 {
                grid.push((100 * t + 10 * y + x) as f32);
            }
        }
    }
    let data = vec![keys(&grid)];
    let fills = vec![key_of(-9999.0)];
    let regions = vec![(b"R".to_vec(), vec![(0usize, 0usize), (1, 1)])];
    let out = aggregate_all(
        &data,
        &fills,
        &regions,
        3,
        2,
        2,
        2,
        key_of(f32::MAX),
        key_of(f32::MIN),
    );
    assert_eq!(out.len(), 3);
    for t in 0..3 {
        assert_eq!(out[t].time_index, t);
        assert_eq!(out[t].region_index, 0);
        let decoded: Vec<f32> = out[t].stats.iter().map(|&k| val_of(k)).collect();
        assert_eq!(decoded, vec![(100 * t) as f32, (100 * t + 11) as f32]);
    }
}

#[test]
fn day_offsets_convert_to_unix_seconds() {
    let days = vec![0i64, 25567, 25568];
    let out = times_to_unix(&days);
    assert_eq!(out, vec![-2_208_988_800, 0, 86_400]);
}
