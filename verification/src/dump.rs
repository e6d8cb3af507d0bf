//! Streaming aggregation engine: per-region, per-time-step extrema of
//! gridded variable samples.
//!
//! Samples reach the library as order-preserving integer keys of the
//! dataset's numeric values, so that minimum, maximum and fill-value
//! comparisons are exact.

use vstd::prelude::*;

verus! {

/// Seconds in one day.
pub const SECONDS_PER_DAY: i64 = 86_400;

/// Seconds from the dataset reference epoch 1900-01-01T00:00:00Z back to the
/// Unix epoch 1970-01-01T00:00:00Z.
pub const REF_EPOCH_BEFORE_UNIX: i64 = 2_208_988_800;

/// Bound on a day offset accepted by the time conversion (about 2.5 million
/// years; keeps the multiplication inside `i64`).
pub const MAX_DAY_OFFSET: i64 = 1_000_000_000;

/// The Unix timestamp of the time-axis value `days`: a day offset from the
/// reference epoch 1900-01-01T00:00:00Z.
pub open spec fn unix_of_days(days: int) -> int {
    days * SECONDS_PER_DAY - REF_EPOCH_BEFORE_UNIX
}

/// Configuration of the aggregation engine run, as parsed from the command
/// line: the assignment file written by the index builder, one or more
/// gridded data files, and the two performance knobs.
pub struct Dump {
    pub data_files: Vec<String>,
    pub index_file: String,
    pub thread_count: u8,
    pub buffer_size: usize,
}

/// Converts a time axis of day offsets from the reference epoch into absolute
/// Unix timestamps.
pub fn times_to_unix(days: &Vec<i64>) -> (r: Vec<i64>)
    requires
        forall|i: int| 0 <= i < days@.len() ==> -MAX_DAY_OFFSET <= #[trigger] days@[i] <= MAX_DAY_OFFSET,
    ensures
        r@.len() == days@.len(),
        forall|i: int| 0 <= i < r@.len() ==> #[trigger] r@[i] == unix_of_days(days@[i] as int),
{
    let mut r: Vec<i64> = Vec::new();
    let mut i: usize = 0;
    while i < days.len()
        invariant
            i <= days@.len(),
            r@.len() == i,
            forall|k: int| 0 <= k < days@.len() ==> -MAX_DAY_OFFSET <= #[trigger] days@[k] <= MAX_DAY_OFFSET,
            forall|k: int| 0 <= k < i ==> #[trigger] r@[k] == unix_of_days(days@[k] as int),
        decreases days@.len() - i,
    {
        r.push(days[i] * SECONDS_PER_DAY - REF_EPOCH_BEFORE_UNIX);
        i = i + 1;
    }
    r
}


/// Flat offset of cell `(x, y)` at local time step `t` inside a chunk buffer
/// laid out time-major, then latitude rows, then longitude columns.
pub open spec fn flat_index(t: int, x: int, y: int, lat_len: int, lon_len: int) -> int {
    t * (lat_len * lon_len) + y * lon_len + x
}

/// Every cell index lies inside the grid.
pub open spec fn cells_ok(cells: Seq<(usize, usize)>, lat_len: int, lon_len: int) -> bool {
    forall|i: int|
        0 <= i < cells.len() ==> (#[trigger] cells[i]).0 < lon_len && cells[i].1 < lat_len
}

/// The sample keys of a region's cells at one time step, in cell-list order.
pub open spec fn samples_of(
    buf: Seq<u32>,
    cells: Seq<(usize, usize)>,
    t: int,
    lat_len: int,
    lon_len: int,
) -> Seq<u32> {
    Seq::new(
        cells.len(),
        |i: int| buf[flat_index(t, cells[i].0 as int, cells[i].1 as int, lat_len, lon_len)],
    )
}

/// Running minimum of the non-fill samples, started from `acc`.
pub open spec fn fold_min(s: Seq<u32>, fill: u32, acc: u32) -> u32
    decreases s.len(),
{
    if s.len() == 0 {
        acc
    } else {
        let last = s[s.len() - 1];
        let prev = fold_min(s.drop_last(), fill, acc);
        if last == fill {
            prev
        } else if last < prev {
            last
        } else {
            prev
        }
    }
}

/// Running maximum of the non-fill samples, started from `acc`.
pub open spec fn fold_max(s: Seq<u32>, fill: u32, acc: u32) -> u32
    decreases s.len(),
{
    if s.len() == 0 {
        acc
    } else {
        let last = s[s.len() - 1];
        let prev = fold_max(s.drop_last(), fill, acc);
        if last == fill {
            prev
        } else if last > prev {
            last
        } else {
            prev
        }
    }
}

/// Minimum and maximum of one feature over one region's cells at one local
/// time step of the chunk buffer.  Samples equal to the feature's fill value
/// are excluded; with no non-fill sample the initial sentinels come back
/// unchanged.
pub fn region_extrema(
    buf: &Vec<u32>,
    fill: u32,
    cells: &Vec<(usize, usize)>,
    t: usize,
    lat_len: usize,
    lon_len: usize,
    init_min: u32,
    init_max: u32,
) -> (r: (u32, u32))
    requires
        cells_ok(cells@, lat_len as int, lon_len as int),
        (t + 1) * (lat_len * lon_len) <= buf@.len(),
    ensures
        r.0 == fold_min(
            samples_of(buf@, cells@, t as int, lat_len as int, lon_len as int),
            fill,
            init_min,
        ),
        r.1 == fold_max(
            samples_of(buf@, cells@, t as int, lat_len as int, lon_len as int),
            fill,
            init_max,
        ),
{
    let ghost gl = lat_len as int;
    let ghost gn = lon_len as int;
    let ghost gt = t as int;
    let mut mn = init_min;
    let mut mx = init_max;
    let mut i: usize = 0;
    let buf_len = buf.len();
    proof {
        assert((gt + 1) * (gl * gn) == gt * (gl * gn) + gl * gn) by (nonlinear_arith);
    }
    while i < cells.len()
        invariant
            cells_ok(cells@, gl, gn),
            gl == lat_len as int,
            gn == lon_len as int,
            gt == t as int,
            (gt + 1) * (gl * gn) <= buf@.len(),
            gt * (gl * gn) + gl * gn <= buf@.len(),
            buf@.len() == buf_len,
            i <= cells@.len(),
            mn == fold_min(samples_of(buf@, cells@.subrange(0, i as int), gt, gl, gn), fill, init_min),
            mx == fold_max(samples_of(buf@, cells@.subrange(0, i as int), gt, gl, gn), fill, init_max),
        decreases cells@.len() - i,
    {
        let (x, y) = cells[i];
        proof {
            assert(y * gn + x < gl * gn) by (nonlinear_arith)
                requires 0 <= x < gn, 0 <= y < gl;
            assert(gl * gn >= 0) by (nonlinear_arith)
                requires gl >= 0, gn >= 0;
            assert(gt * (gl * gn) >= 0) by (nonlinear_arith)
                requires gt >= 0, gl * gn >= 0;
        }
        let idx = t * (lat_len * lon_len) + y * lon_len + x;
        let v = buf[idx];
        if v != fill {
            if v < mn {
                mn = v;
            }
            if v > mx {
                mx = v;
            }
        }
        proof {
            let sp = samples_of(buf@, cells@.subrange(0, i + 1), gt, gl, gn);
            assert(sp.drop_last() =~= samples_of(buf@, cells@.subrange(0, i as int), gt, gl, gn));
            assert(sp[sp.len() - 1] == buf@[flat_index(gt, x as int, y as int, gl, gn)]);
        }
        i = i + 1;
    }
    proof {
        assert(cells@.subrange(0, cells@.len() as int) =~= cells@);
    }
    (mn, mx)
}

/// The running minimum never exceeds its start value.
proof fn lemma_fold_min_le_acc(s: Seq<u32>, fill: u32, acc: u32)
    ensures
        fold_min(s, fill, acc) <= acc,
    decreases s.len(),
{
    if s.len() > 0 {
        lemma_fold_min_le_acc(s.drop_last(), fill, acc);
    }
}

/// The running minimum is bounded by every non-fill sample.
proof fn lemma_fold_min_le_sample(s: Seq<u32>, fill: u32, acc: u32, i: int)
    requires
        0 <= i < s.len(),
        s[i] != fill,
    ensures
        fold_min(s, fill, acc) <= s[i],
    decreases s.len(),
{
    if i == s.len() - 1 {
        lemma_fold_min_le_acc(s.drop_last(), fill, acc);
    } else {
        lemma_fold_min_le_sample(s.drop_last(), fill, acc, i);
        assert(s.drop_last()[i] == s[i]);
    }
}

/// The running maximum never falls below its start value.
proof fn lemma_fold_max_ge_acc(s: Seq<u32>, fill: u32, acc: u32)
    ensures
        fold_max(s, fill, acc) >= acc,
    decreases s.len(),
{
    if s.len() > 0 {
        lemma_fold_max_ge_acc(s.drop_last(), fill, acc);
    }
}

/// The running maximum is bounded below by every non-fill sample.
proof fn lemma_fold_max_ge_sample(s: Seq<u32>, fill: u32, acc: u32, i: int)
    requires
        0 <= i < s.len(),
        s[i] != fill,
    ensures
        fold_max(s, fill, acc) >= s[i],
    decreases s.len(),
{
    if i == s.len() - 1 {
        lemma_fold_max_ge_acc(s.drop_last(), fill, acc);
    } else {
        lemma_fold_max_ge_sample(s.drop_last(), fill, acc, i);
        assert(s.drop_last()[i] == s[i]);
    }
}

/// Whenever at least one non-fill sample exists, the reported minimum is at
/// most the reported maximum, whatever sentinels the run started from.
pub proof fn lemma_min_le_max_when_sampled(
    s: Seq<u32>,
    fill: u32,
    init_min: u32,
    init_max: u32,
    i: int,
)
    requires
        0 <= i < s.len(),
        s[i] != fill,
    ensures
        fold_min(s, fill, init_min) <= fold_max(s, fill, init_max),
{
    lemma_fold_min_le_sample(s, fill, init_min, i);
    lemma_fold_max_ge_sample(s, fill, init_max, i);
}

/// With no non-fill sample at all, the sentinels come back unchanged: the
/// record then reports the initial extrema, exactly as documented.
pub proof fn lemma_all_fill_keeps_sentinels(s: Seq<u32>, fill: u32, init_min: u32, init_max: u32)
    requires
        forall|i: int| 0 <= i < s.len() ==> s[i] == fill,
    ensures
        fold_min(s, fill, init_min) == init_min,
        fold_max(s, fill, init_max) == init_max,
    decreases s.len(),
{
    if s.len() > 0 {
        lemma_all_fill_keeps_sentinels(s.drop_last(), fill, init_min, init_max);
    }
}


/// One worker task of the aggregation engine: for every feature buffer the
/// extrema over one region's cells at one local time step, interleaved as
/// `min, max` per feature in feature order, exactly as one output record
/// carries them.
pub fn task_extrema(
    buffers: &Vec<Vec<u32>>,
    fills: &Vec<u32>,
    cells: &Vec<(usize, usize)>,
    t: usize,
    lat_len: usize,
    lon_len: usize,
    init_min: u32,
    init_max: u32,
) -> (r: Vec<u32>)
    requires
        fills@.len() == buffers@.len(),
        cells_ok(cells@, lat_len as int, lon_len as int),
        forall|f: int|
            0 <= f < buffers@.len() ==> (t + 1) * (lat_len * lon_len) <= (
            #[trigger] buffers@[f])@.len(),
    ensures
        r@.len() == 2 * buffers@.len(),
        forall|f: int|
            0 <= f < buffers@.len() ==> r@[2 * f] == fold_min(
                samples_of((#[trigger] buffers@[f])@, cells@, t as int, lat_len as int, lon_len as int),
                fills@[f],
                init_min,
            ) && r@[2 * f + 1] == fold_max(
                samples_of(buffers@[f]@, cells@, t as int, lat_len as int, lon_len as int),
                fills@[f],
                init_max,
            ),
{
    let mut r: Vec<u32> = Vec::new();
    let mut f: usize = 0;
    while f < buffers.len()
        invariant
            fills@.len() == buffers@.len(),
            cells_ok(cells@, lat_len as int, lon_len as int),
            forall|g: int|
                0 <= g < buffers@.len() ==> (t + 1) * (lat_len * lon_len) <= (
                #[trigger] buffers@[g])@.len(),
            f <= buffers@.len(),
            r@.len() == 2 * f,
            forall|g: int|
                0 <= g < f ==> r@[2 * g] == fold_min(
                    samples_of((#[trigger] buffers@[g])@, cells@, t as int, lat_len as int, lon_len as int),
                    fills@[g],
                    init_min,
                ) && r@[2 * g + 1] == fold_max(
                    samples_of(buffers@[g]@, cells@, t as int, lat_len as int, lon_len as int),
                    fills@[g],
                    init_max,
                ),
        decreases buffers@.len() - f,
    {
        let (mn, mx) = region_extrema(
            &buffers[f],
            fills[f],
            cells,
            t,
            lat_len,
            lon_len,
            init_min,
            init_max,
        );
        r.push(mn);
        r.push(mx);
        f = f + 1;
    }
    r
}

/// One aggregate record of the engine: the global time index, the region by
/// its position in the loaded assignment store, and `min, max` per feature.
pub struct AggregateRecord {
    pub time_index: usize,
    pub region_index: usize,
    pub stats: Vec<u32>,
}

/// The statistics the record for time step `t` and one region must hold:
/// per feature, in feature order, the extrema over the region's cells with
/// fill samples excluded.
pub open spec fn record_stats_spec(
    data: Seq<Vec<u32>>,
    fills: Seq<u32>,
    cells: Seq<(usize, usize)>,
    t: int,
    lat_len: int,
    lon_len: int,
    init_min: u32,
    init_max: u32,
) -> Seq<u32> {
    Seq::new(
        2 * data.len(),
        |k: int|
            if k % 2 == 0 {
                fold_min(samples_of(data[k / 2]@, cells, t, lat_len, lon_len), fills[k / 2], init_min)
            } else {
                fold_max(samples_of(data[k / 2]@, cells, t, lat_len, lon_len), fills[k / 2], init_max)
            },
    )
}

/// The record at position `t * regions.len() + j` of the engine output is
/// the one owed to time step `t` and region `j`.
pub open spec fn record_at_ok(
    rec: AggregateRecord,
    data: Seq<Vec<u32>>,
    fills: Seq<u32>,
    regions: Seq<(Vec<u8>, Vec<(usize, usize)>)>,
    t: int,
    j: int,
    lat_len: int,
    lon_len: int,
    init_min: u32,
    init_max: u32,
) -> bool {
    &&& rec.time_index == t
    &&& rec.region_index == j
    &&& rec.stats@ == record_stats_spec(
        data,
        fills,
        regions[j].1@,
        t,
        lat_len,
        lon_len,
        init_min,
        init_max,
    )
}

/// Copies `count` samples of a feature's full series, starting at `offset`,
/// into a fresh chunk buffer.
fn load_chunk(series: &Vec<u32>, offset: usize, count: usize) -> (b: Vec<u32>)
    requires
        offset + count <= series@.len(),
    ensures
        b@.len() == count,
        forall|k: int| 0 <= k < count ==> #[trigger] b@[k] == series@[offset + k],
{
    let mut b: Vec<u32> = Vec::new();
    let mut k: usize = 0;
    let n = series.len();
    while k < count
        invariant
            offset + count <= series@.len(),
            series@.len() == n,
            k <= count,
            b@.len() == k,
            forall|m: int| 0 <= m < k ==> #[trigger] b@[m] == series@[offset + m],
        decreases count - k,
    {
        b.push(series[offset + k]);
        k = k + 1;
    }
    b
}

/// Sequential model of the engine's steady-state loop: the time axis is
/// walked in chunks of up to `buffer_size` steps, each chunk's block of
/// every feature is copied into a per-feature chunk buffer, and one record
/// is produced per (time step, region) pair, time-major then region-major.
///
/// The postcondition pins every record as a function of the data, the fill
/// values, the assignment store and the sentinels alone: `buffer_size` is a
/// performance knob, and runs with different chunk sizes produce identical
/// output.  The concurrent shell around the library reuses one allocation
/// per feature and synchronizes chunk reloads; this model reallocates, which
/// reads the same samples.
pub fn aggregate_all(
    data: &Vec<Vec<u32>>,
    fills: &Vec<u32>,
    regions: &Vec<(Vec<u8>, Vec<(usize, usize)>)>,
    n_times: usize,
    lat_len: usize,
    lon_len: usize,
    buffer_size: usize,
    init_min: u32,
    init_max: u32,
) -> (r: Vec<AggregateRecord>)
    requires
        buffer_size >= 1,
        fills@.len() == data@.len(),
        lat_len * lon_len <= usize::MAX,
        n_times * (lat_len * lon_len) <= usize::MAX,
        forall|f: int|
            0 <= f < data@.len() ==> (#[trigger] data@[f])@.len() == n_times * (lat_len * lon_len),
        forall|j: int|
            0 <= j < regions@.len() ==> cells_ok(
                (#[trigger] regions@[j]).1@,
                lat_len as int,
                lon_len as int,
            ),
    ensures
        r@.len() == n_times * regions@.len(),
        forall|t: int, j: int|
            0 <= t < n_times && 0 <= j < regions@.len() ==> record_at_ok(
                #[trigger] r@[t * regions@.len() + j],
                data@,
                fills@,
                regions@,
                t,
                j,
                lat_len as int,
                lon_len as int,
                init_min,
                init_max,
            ),
{
    let ghost gl = lat_len as int;
    let ghost gn = lon_len as int;
    let ghost gr = regions@.len() as int;
    let big_l = lat_len * lon_len;
    let n_regions = regions.len();
    let mut r: Vec<AggregateRecord> = Vec::new();
    let mut i: usize = 0;
    while i < n_times
        invariant
            buffer_size >= 1,
            fills@.len() == data@.len(),
            big_l == lat_len * lon_len,
            gl == lat_len as int,
            gn == lon_len as int,
            gr == regions@.len() as int,
            n_regions == regions@.len(),
            n_times * (lat_len * lon_len) <= usize::MAX,
            forall|f: int|
                0 <= f < data@.len() ==> (#[trigger] data@[f])@.len() == n_times * (lat_len
                    * lon_len),
            forall|j: int| 0 <= j < regions@.len() ==> cells_ok((#[trigger] regions@[j]).1@, gl, gn),
            i <= n_times,
            r@.len() == i * gr,
            forall|t: int, j: int|
                0 <= t < i && 0 <= j < gr ==> record_at_ok(
                    #[trigger] r@[t * gr + j],
                    data@,
                    fills@,
                    regions@,
                    t,
                    j,
                    gl,
                    gn,
                    init_min,
                    init_max,
                ),
        decreases n_times - i,
    {
        let chunk = if buffer_size < n_times - i {
            buffer_size
        } else {
            n_times - i
        };
        proof {
            assert(i * (gl * gn) + chunk * (gl * gn) == (i + chunk) * (gl * gn))
                by (nonlinear_arith);
            assert((i + chunk) * (gl * gn) <= n_times * (gl * gn)) by (nonlinear_arith)
                requires 0 <= i + chunk <= n_times, 0 <= gl * gn;
            assert(i * (gl * gn) >= 0 && chunk * (gl * gn) >= 0) by (nonlinear_arith)
                requires 0 <= i, 0 <= chunk, 0 <= gl * gn;
        }
        // load phase: one fresh chunk buffer per feature
        let mut bufs: Vec<Vec<u32>> = Vec::new();
        let mut f: usize = 0;
        while f < data.len()
            invariant
                big_l == lat_len * lon_len,
                gl == lat_len as int,
                gn == lon_len as int,
                i + chunk <= n_times,
                n_times * (gl * gn) <= usize::MAX,
                i * (gl * gn) + chunk * (gl * gn) <= n_times * (gl * gn),
                i * (gl * gn) >= 0,
                chunk * (gl * gn) >= 0,
                forall|g: int|
                    0 <= g < data@.len() ==> (#[trigger] data@[g])@.len() == n_times * (gl * gn),
                f <= data@.len(),
                bufs@.len() == f,
                forall|g: int|
                    0 <= g < f ==> (#[trigger] bufs@[g])@.len() == chunk * (gl * gn),
                forall|g: int, k: int|
                    0 <= g < f && 0 <= k < chunk * (gl * gn) ==> (#[trigger] bufs@[g]@[k])
                        == data@[g]@[i * (gl * gn) + k],
            decreases data@.len() - f,
        {
            let b = load_chunk(&data[f], i * big_l, chunk * big_l);
            bufs.push(b);
            f = f + 1;
        }
        // compute phase: one record per (local time step, region) pair
        let mut t_local: usize = 0;
        while t_local < chunk
            invariant
                buffer_size >= 1,
                fills@.len() == data@.len(),
                big_l == lat_len * lon_len,
                gl == lat_len as int,
                gn == lon_len as int,
                gr == regions@.len() as int,
                n_regions == regions@.len(),
                n_times * (gl * gn) <= usize::MAX,
                forall|g: int|
                    0 <= g < data@.len() ==> (#[trigger] data@[g])@.len() == n_times * (gl * gn),
                forall|j: int|
                    0 <= j < regions@.len() ==> cells_ok((#[trigger] regions@[j]).1@, gl, gn),
                i + chunk <= n_times,
                chunk >= 1,
                bufs@.len() == data@.len(),
                forall|g: int|
                    0 <= g < bufs@.len() ==> (#[trigger] bufs@[g])@.len() == chunk * (gl * gn),
                forall|g: int, k: int|
                    0 <= g < bufs@.len() && 0 <= k < chunk * (gl * gn) ==> (
                    #[trigger] bufs@[g]@[k]) == data@[g]@[i * (gl * gn) + k],
                t_local <= chunk,
                r@.len() == (i + t_local) * gr,
                forall|t: int, j: int|
                    0 <= t < i + t_local && 0 <= j < gr ==> record_at_ok(
                        #[trigger] r@[t * gr + j],
                        data@,
                        fills@,
                        regions@,
                        t,
                        j,
                        gl,
                        gn,
                        init_min,
                        init_max,
                    ),
            decreases chunk - t_local,
        {
            let mut j: usize = 0;
            while j < n_regions
                invariant
                    buffer_size >= 1,
                    fills@.len() == data@.len(),
                    big_l == lat_len * lon_len,
                    gl == lat_len as int,
                    gn == lon_len as int,
                    gr == regions@.len() as int,
                    n_regions == regions@.len(),
                    n_times * (gl * gn) <= usize::MAX,
                    forall|g: int|
                        0 <= g < data@.len() ==> (#[trigger] data@[g])@.len() == n_times * (gl
                            * gn),
                    forall|jj: int|
                        0 <= jj < regions@.len() ==> cells_ok((#[trigger] regions@[jj]).1@, gl, gn),
                    i + chunk <= n_times,
                    t_local < chunk,
                    bufs@.len() == data@.len(),
                    forall|g: int|
                        0 <= g < bufs@.len() ==> (#[trigger] bufs@[g])@.len() == chunk * (gl * gn),
                    forall|g: int, k: int|
                        0 <= g < bufs@.len() && 0 <= k < chunk * (gl * gn) ==> (
                        #[trigger] bufs@[g]@[k]) == data@[g]@[i * (gl * gn) + k],
                    j <= n_regions,
                    r@.len() == (i + t_local) * gr + j,
                    forall|t: int, jj: int|
                        0 <= t < i + t_local && 0 <= jj < gr ==> record_at_ok(
                            #[trigger] r@[t * gr + jj],
                            data@,
                            fills@,
                            regions@,
                            t,
                            jj,
                            gl,
                            gn,
                            init_min,
                            init_max,
                        ),
                    forall|jj: int|
                        0 <= jj < j ==> record_at_ok(
                            #[trigger] r@[(i + t_local) * gr + jj],
                            data@,
                            fills@,
                            regions@,
                            i + t_local,
                            jj,
                            gl,
                            gn,
                            init_min,
                            init_max,
                        ),
                decreases n_regions - j,
            {
                proof {
                    assert((t_local + 1) * (gl * gn) <= chunk * (gl * gn)) by (nonlinear_arith)
                        requires 0 <= t_local + 1 <= chunk, 0 <= gl * gn;
                }
                let stats = task_extrema(
                    &bufs,
                    fills,
                    &regions[j].1,
                    t_local,
                    lat_len,
                    lon_len,
                    init_min,
                    init_max,
                );
                proof {
                    let gt = i + t_local as int;
                    assert forall|g: int| 0 <= g < data@.len() implies samples_of(
                        bufs@[g]@,
                        regions@[j as int].1@,
                        t_local as int,
                        gl,
                        gn,
                    ) =~= samples_of(data@[g]@, regions@[j as int].1@, gt, gl, gn) by {
                        let cells = regions@[j as int].1@;
                        assert forall|m: int| 0 <= m < cells.len() implies samples_of(
                            bufs@[g]@,
                            cells,
                            t_local as int,
                            gl,
                            gn,
                        )[m] == samples_of(data@[g]@, cells, gt, gl, gn)[m] by {
                            let x = cells[m].0 as int;
                            let y = cells[m].1 as int;
                            assert(0 <= y * gn + x < gl * gn) by (nonlinear_arith)
                                requires 0 <= x < gn, 0 <= y < gl;
                            assert((t_local as int) * (gl * gn) + (y * gn + x) < chunk * (gl * gn))
                                by (nonlinear_arith)
                                requires
                                    0 <= t_local < chunk,
                                    0 <= y * gn + x < gl * gn;
                            assert((t_local as int) * (gl * gn) >= 0) by (nonlinear_arith)
                                requires 0 <= t_local, 0 <= gl * gn;
                            assert(i * (gl * gn) + (t_local as int) * (gl * gn) == (i
                                + t_local as int) * (gl * gn)) by (nonlinear_arith);
                            assert(bufs@[g]@[flat_index(t_local as int, x, y, gl, gn)]
                                == data@[g]@[i * (gl * gn) + (t_local as int) * (gl * gn) + (y * gn
                                + x)]);
                        }
                    }
                    assert(stats@ =~= record_stats_spec(
                        data@,
                        fills@,
                        regions@[j as int].1@,
                        gt,
                        gl,
                        gn,
                        init_min,
                        init_max,
                    ));
                }
                let rec = AggregateRecord { time_index: i + t_local, region_index: j, stats };
                let ghost r_pre = r@;
                r.push(rec);
                proof {
                    assert(r@.len() == (i + t_local) * gr + j + 1);
                    assert forall|t: int, jj: int| 0 <= t < i + t_local && 0 <= jj < gr
                        implies record_at_ok(
                        #[trigger] r@[t * gr + jj],
                        data@,
                        fills@,
                        regions@,
                        t,
                        jj,
                        gl,
                        gn,
                        init_min,
                        init_max,
                    ) by {
                        assert(t * gr + jj < (i + t_local) * gr) by (nonlinear_arith)
                            requires 0 <= t < i + t_local, 0 <= jj < gr;
                        assert(r@[t * gr + jj] == r_pre[t * gr + jj]);
                    }
                }
                j = j + 1;
            }
            proof {
                assert((i + t_local) * gr + gr == (i + t_local + 1) * gr) by (nonlinear_arith);
            }
            t_local = t_local + 1;
        }
        i = i + chunk;
    }
    r
}

} // verus!
