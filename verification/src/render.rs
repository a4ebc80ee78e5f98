//! Distribution of the rays of an image over worker threads and pixels.
use vstd::prelude::*;
use vstd::arithmetic::div_mod::*;
use vstd::arithmetic::mul::*;
use core::ops::Range;
use crate::color::{ColorStack, is_rectangular, grid_width, plus_at, plus_is_function};

verus! {

/// Number of rays that are cast for a whole image.
pub open spec fn spec_total_rays(res_x: int, res_y: int, n_rays_per_pixel: int) -> int {
    res_x * res_y * n_rays_per_pixel
}

/// First ray number handed to thread `i` when `total` rays are spread over
/// `n_threads` threads: the first `total % n_threads` threads take one ray
/// more than the others, and the ranges follow each other without gaps.
pub open spec fn spec_range_start(total: int, n_threads: int, i: int) -> int {
    let q = total / n_threads;
    let r = total % n_threads;
    q * i + if i < r { i } else { r }
}

/// Pixel (column, row) that ray number `i` of an image of `res_x` x `res_y`
/// pixels goes through: rays walk the image row by row from the top left
/// corner, and start over once every pixel has had one.
pub open spec fn spec_pixel_of_ray(i: int, res_x: int, res_y: int) -> (int, int) {
    (i % res_x, (i / res_x) % res_y)
}

/// Total number of rays for an image of `res_x` x `res_y` pixels with
/// `n_rays_per_pixel` rays through every pixel.
pub fn total_rays(res_x: u32, res_y: u32, n_rays_per_pixel: u64) -> (total: u64)
    requires
        spec_total_rays(res_x as int, res_y as int, n_rays_per_pixel as int) <= u64::MAX,
    ensures
        total == spec_total_rays(res_x as int, res_y as int, n_rays_per_pixel as int),
{
    proof {
        lemma_mul_upper_bound(res_x as int, u32::MAX as int, res_y as int, u32::MAX as int);
    }
    let pixels: u64 = (res_x as u64) * (res_y as u64);
    pixels * n_rays_per_pixel
}

/// Whether a path that has bounced `n_bounces` times goes on when rays are
/// terminated after `max_bounces` bounces.
pub fn within_bounce_limit(n_bounces: u64, max_bounces: u64) -> (goes_on: bool)
    ensures
        goes_on == (n_bounces <= max_bounces),
{
    n_bounces <= max_bounces
}

/// Whether ray number `i` is the last ray of a pass over all `n_pixels` pixels.
pub open spec fn spec_ends_pass(i: int, n_pixels: int) -> bool {
    i % n_pixels == n_pixels - 1
}

/// The rays `spec_range_start(i) .. spec_range_start(i + 1)` that thread `i` of
/// `n_threads` traces, out of `n_rays_total` rays in all.
pub fn ray_range_of_thread(n_rays_total: u64, n_threads: u8, i: u8) -> (range: Range<u64>)
    requires
        0 < n_threads,
        i < n_threads,
    ensures
        range.start == spec_range_start(n_rays_total as int, n_threads as int, i as int),
        range.end == spec_range_start(n_rays_total as int, n_threads as int, i + 1),
{
    let n: u64 = n_threads as u64;
    let q: u64 = n_rays_total / n;
    let r: u64 = n_rays_total % n;
    let k: u64 = i as u64;
    proof {
        lemma_fundamental_div_mod(n_rays_total as int, n as int);
        assert(q * (k + 1) <= q * n) by (nonlinear_arith)
            requires k + 1 <= n;
        assert((q + 1) * (k + 1) == q * (k + 1) + k + 1) by (nonlinear_arith);
        assert((q + 1) * k == q * k + k) by (nonlinear_arith);
        assert(q * k <= q * (k + 1)) by (nonlinear_arith);
    }
    if k < r {
        assert(q + 1 <= u64::MAX) by (nonlinear_arith)
            requires n * q + r == n_rays_total, r < n, 0 < r, n_rays_total <= u64::MAX;
        assert((q + 1) * (k + 1) <= n_rays_total) by (nonlinear_arith)
            requires n * q + r == n_rays_total, k < r, k < n;
        assert((q + 1) * k <= (q + 1) * (k + 1)) by (nonlinear_arith);
        let start: u64 = (q + 1) * k;
        let end: u64 = (q + 1) * (k + 1);
        start..end
    } else {
        assert(q * (k + 1) + r <= n_rays_total) by (nonlinear_arith)
            requires n * q + r == n_rays_total, k < n;
        let start: u64 = q * k + r;
        let end: u64 = q * (k + 1) + r;
        start..end
    }
}

/// The ray ranges of all `n_threads` threads, in thread order.
pub fn ray_ranges(n_rays_total: u64, n_threads: u8) -> (ranges: Vec<Range<u64>>)
    requires
        0 < n_threads,
    ensures
        ranges.len() == n_threads,
        forall|i: int|
            0 <= i < n_threads ==> {
                &&& (#[trigger] ranges[i]).start == spec_range_start(n_rays_total as int, n_threads as int, i)
                &&& ranges[i].end == spec_range_start(n_rays_total as int, n_threads as int, i + 1)
            },
{
    let mut ranges: Vec<Range<u64>> = Vec::new();
    let mut i: u8 = 0;
    while i < n_threads
        invariant
            i <= n_threads,
            ranges.len() == i,
            forall|j: int|
                0 <= j < i ==> {
                    &&& (#[trigger] ranges[j]).start == spec_range_start(n_rays_total as int, n_threads as int, j)
                    &&& ranges[j].end == spec_range_start(n_rays_total as int, n_threads as int, j + 1)
                },
        decreases n_threads - i,
    {
        let range = ray_range_of_thread(n_rays_total, n_threads, i);
        ranges.push(range);
        i = i + 1;
    }
    ranges
}

/// The pixel (column, row) that ray number `i` goes through in an image of
/// `res_x` x `res_y` pixels.
pub fn pixel_of_ray(i: u64, res_x: u32, res_y: u32) -> (pixel: (usize, usize))
    requires
        0 < res_x,
        0 < res_y,
    ensures
        pixel.0 == spec_pixel_of_ray(i as int, res_x as int, res_y as int).0,
        pixel.1 == spec_pixel_of_ray(i as int, res_x as int, res_y as int).1,
        pixel.0 < res_x,
        pixel.1 < res_y,
{
    let x: u64 = i % (res_x as u64);
    let y: u64 = (i / (res_x as u64)) % (res_y as u64);
    (x as usize, y as usize)
}

/// Whether ray number `i` is the last ray of a pass over the `n_pixels` pixels
/// of the image (after it, every pixel has had one more ray).
pub fn ends_pass(i: u64, n_pixels: u64) -> (ends: bool)
    requires
        0 < n_pixels,
    ensures
        ends == spec_ends_pass(i as int, n_pixels as int),
{
    i % n_pixels == n_pixels - 1
}


/// The thread ranges start at ray 0 and the last one ends after the last ray.
pub proof fn lemma_ranges_span_all_rays(total: int, n_threads: int)
    requires
        0 <= total,
        0 < n_threads,
    ensures
        spec_range_start(total, n_threads, 0) == 0,
        spec_range_start(total, n_threads, n_threads) == total,
{
    lemma_fundamental_div_mod(total, n_threads);
    lemma_mod_bound(total, n_threads);
    assert((total / n_threads) * 0 == 0) by (nonlinear_arith);
    assert((total / n_threads) * n_threads == n_threads * (total / n_threads)) by (nonlinear_arith);
}

/// Thread `i` traces `total / n_threads` rays, and one more when it is among
/// the first `total % n_threads` threads.
pub proof fn lemma_range_len(total: int, n_threads: int, i: int)
    requires
        0 <= total,
        0 < n_threads,
        0 <= i < n_threads,
    ensures
        spec_range_start(total, n_threads, i + 1) - spec_range_start(total, n_threads, i)
            == total / n_threads + if i < total % n_threads { 1int } else { 0int },
{
    let q = total / n_threads;
    assert(q * (i + 1) == q * i + q) by (nonlinear_arith);
}

/// Later threads start no earlier than earlier ones.
pub proof fn lemma_range_start_monotone(total: int, n_threads: int, i: int, j: int)
    requires
        0 <= total,
        0 < n_threads,
        0 <= i <= j,
    ensures
        spec_range_start(total, n_threads, i) <= spec_range_start(total, n_threads, j),
{
    let q = total / n_threads;
    lemma_div_pos_is_pos(total, n_threads);
    assert(q * i <= q * j) by (nonlinear_arith)
        requires 0 <= q, i <= j;
}

proof fn lemma_ray_below_start_has_range(total: int, n_threads: int, k: int, m: int)
    requires
        0 <= total,
        0 < n_threads,
        0 <= k,
        0 <= m <= n_threads,
        k < spec_range_start(total, n_threads, m),
    ensures
        exists|i: int|
            0 <= i < m && spec_range_start(total, n_threads, i) <= k
                < #[trigger] spec_range_start(total, n_threads, i + 1),
    decreases m,
{
    lemma_ranges_span_all_rays(total, n_threads);
    if spec_range_start(total, n_threads, m - 1) <= k {
        assert(spec_range_start(total, n_threads, (m - 1) + 1) == spec_range_start(total, n_threads, m));
    } else {
        lemma_ray_below_start_has_range(total, n_threads, k, m - 1);
    }
}

/// The thread ranges split the rays `0 .. total` among the threads: every ray
/// lies in the range of exactly one thread.
pub proof fn lemma_each_ray_in_one_range(total: int, n_threads: int, k: int)
    requires
        0 <= total,
        0 < n_threads,
        0 <= k < total,
    ensures
        exists|i: int|
            0 <= i < n_threads && spec_range_start(total, n_threads, i) <= k
                < #[trigger] spec_range_start(total, n_threads, i + 1),
        forall|i: int, j: int|
            0 <= i < n_threads && 0 <= j < n_threads && spec_range_start(total, n_threads, i) <= k
                < #[trigger] spec_range_start(total, n_threads, i + 1) && spec_range_start(
                total,
                n_threads,
                j,
            ) <= k < #[trigger] spec_range_start(total, n_threads, j + 1) ==> i == j,
{
    lemma_ranges_span_all_rays(total, n_threads);
    lemma_ray_below_start_has_range(total, n_threads, k, n_threads);
    assert forall|i: int, j: int|
        0 <= i < n_threads && 0 <= j < n_threads && spec_range_start(total, n_threads, i) <= k
            < #[trigger] spec_range_start(total, n_threads, i + 1) && spec_range_start(
            total,
            n_threads,
            j,
        ) <= k < #[trigger] spec_range_start(total, n_threads, j + 1) implies i == j by {
        if i < j {
            lemma_range_start_monotone(total, n_threads, i + 1, j);
        } else if j < i {
            lemma_range_start_monotone(total, n_threads, j + 1, i);
        }
    }
}

/// Ray `i` goes through a pixel of the image, and its row-major number
/// `row * res_x + column` is `i` modulo the number of pixels.
pub proof fn lemma_pixel_row_major(i: int, res_x: int, res_y: int)
    requires
        0 <= i,
        0 < res_x,
        0 < res_y,
    ensures
        0 <= spec_pixel_of_ray(i, res_x, res_y).0 < res_x,
        0 <= spec_pixel_of_ray(i, res_x, res_y).1 < res_y,
        spec_pixel_of_ray(i, res_x, res_y).1 * res_x + spec_pixel_of_ray(i, res_x, res_y).0 == i % (
        res_x * res_y),
{
    lemma_breakdown(i, res_x, res_y);
    lemma_mod_bound(i, res_x);
    lemma_div_pos_is_pos(i, res_x);
    lemma_mod_bound(i / res_x, res_y);
    assert(res_x * ((i / res_x) % res_y) == ((i / res_x) % res_y) * res_x) by (nonlinear_arith);
}

/// In every pass `p` over the image, the ray `p * res_x * res_y + row * res_x + column`
/// goes through pixel (column, row): each pass reaches every pixel.
pub proof fn lemma_pass_reaches_every_pixel(p: int, x: int, y: int, res_x: int, res_y: int)
    requires
        0 <= p,
        0 <= x < res_x,
        0 <= y < res_y,
    ensures
        spec_pixel_of_ray(p * (res_x * res_y) + y * res_x + x, res_x, res_y) == (x, y),
{
    let i = p * (res_x * res_y) + y * res_x + x;
    assert(0 <= y * res_x + x < res_x * res_y) by (nonlinear_arith)
        requires 0 <= x < res_x, 0 <= y < res_y;
    assert(i == (p * res_y + y) * res_x + x) by (nonlinear_arith)
        requires i == p * (res_x * res_y) + y * res_x + x;
    assert(0 <= p * res_y + y) by (nonlinear_arith)
        requires 0 <= p, 0 <= y, 0 < res_y;
    lemma_fundamental_div_mod_converse(i, res_x, p * res_y + y, x);
    assert(p * res_y + y == res_y * p + y) by (nonlinear_arith);
    lemma_fundamental_div_mod_converse(p * res_y + y, res_y, p, y);
}

/// Within one pass over the image no pixel is reached twice: two rays of the
/// same pass that go through the same pixel are the same ray.
pub proof fn lemma_pass_reaches_each_pixel_once(i: int, j: int, res_x: int, res_y: int)
    requires
        0 <= i,
        0 <= j,
        0 < res_x,
        0 < res_y,
        i / (res_x * res_y) == j / (res_x * res_y),
        spec_pixel_of_ray(i, res_x, res_y) == spec_pixel_of_ray(j, res_x, res_y),
    ensures
        i == j,
{
    lemma_pixel_row_major(i, res_x, res_y);
    lemma_pixel_row_major(j, res_x, res_y);
    let n = res_x * res_y;
    assert(0 < n) by (nonlinear_arith)
        requires 0 < res_x, 0 < res_y, n == res_x * res_y;
    lemma_fundamental_div_mod(i, n);
    lemma_fundamental_div_mod(j, n);
}

/// A pass over the image ends exactly at the ray through its bottom right pixel.
pub proof fn lemma_pass_ends_at_last_pixel(i: int, res_x: int, res_y: int)
    requires
        0 <= i,
        0 < res_x,
        0 < res_y,
    ensures
        spec_ends_pass(i, res_x * res_y) <==> spec_pixel_of_ray(i, res_x, res_y) == (res_x - 1, res_y - 1),
{
    lemma_pixel_row_major(i, res_x, res_y);
    let x = spec_pixel_of_ray(i, res_x, res_y).0;
    let y = spec_pixel_of_ray(i, res_x, res_y).1;
    if y * res_x + x == res_x * res_y - 1 {
        assert(x == res_x - 1 && y == res_y - 1) by (nonlinear_arith)
            requires y * res_x + x == res_x * res_y - 1, 0 <= x < res_x, 0 <= y < res_y;
    }
    if x == res_x - 1 && y == res_y - 1 {
        assert(y * res_x + x == res_x * res_y - 1) by (nonlinear_arith)
            requires x == res_x - 1, y == res_y - 1;
    }
}


/// Over all `res_x * res_y * n_rays_per_pixel` rays of an image, ray `i`
/// goes through pixel (column, row) exactly when it is the ray of that pixel
/// in one of the `n_rays_per_pixel` passes: every pixel gets
/// `n_rays_per_pixel` rays.
pub proof fn lemma_each_pixel_gets_its_rays(
    res_x: int,
    res_y: int,
    n_rays_per_pixel: int,
    x: int,
    y: int,
    i: int,
)
    requires
        0 < res_x,
        0 < res_y,
        0 <= x < res_x,
        0 <= y < res_y,
        0 <= i < spec_total_rays(res_x, res_y, n_rays_per_pixel),
    ensures
        spec_pixel_of_ray(i, res_x, res_y) == (x, y) <==> exists|p: int|
            0 <= p < n_rays_per_pixel && i == #[trigger] (p * (res_x * res_y)) + y * res_x + x,
{
    let n = res_x * res_y;
    assert(0 < n) by (nonlinear_arith)
        requires 0 < res_x, 0 < res_y, n == res_x * res_y;
    if spec_pixel_of_ray(i, res_x, res_y) == (x, y) {
        lemma_pixel_row_major(i, res_x, res_y);
        lemma_fundamental_div_mod(i, n);
        let p = i / n;
        lemma_div_pos_is_pos(i, n);
        assert(i == p * n + y * res_x + x) by (nonlinear_arith)
            requires i == n * p + i % n, i % n == y * res_x + x;
        assert(p < n_rays_per_pixel) by (nonlinear_arith)
            requires i == p * n + y * res_x + x, 0 <= y * res_x + x, i < res_x * res_y * n_rays_per_pixel,
                n == res_x * res_y, 0 < n;
        assert(i == (p * (res_x * res_y)) + y * res_x + x);
    }
    if exists|p: int| 0 <= p < n_rays_per_pixel && i == #[trigger] (p * (res_x * res_y)) + y * res_x + x {
        let p = choose|p: int| 0 <= p < n_rays_per_pixel && i == #[trigger] (p * (res_x * res_y)) + y * res_x + x;
        lemma_pass_reaches_every_pixel(p, x, y, res_x, res_y);
    }
}

/// Over all `res_x * res_y * n_rays_per_pixel` rays of an image, the rays
/// that end a pass are the last rays of the `n_rays_per_pixel` passes, one per
/// pass: progress counted by ended passes reaches `n_rays_per_pixel`.
pub proof fn lemma_one_pass_end_per_pass(res_x: int, res_y: int, n_rays_per_pixel: int, i: int)
    requires
        0 < res_x,
        0 < res_y,
        0 <= i < spec_total_rays(res_x, res_y, n_rays_per_pixel),
    ensures
        spec_ends_pass(i, res_x * res_y) <==> exists|p: int|
            0 <= p < n_rays_per_pixel && i == #[trigger] (p * (res_x * res_y)) + (res_x * res_y - 1),
{
    lemma_pass_ends_at_last_pixel(i, res_x, res_y);
    lemma_each_pixel_gets_its_rays(res_x, res_y, n_rays_per_pixel, res_x - 1, res_y - 1, i);
    assert((res_y - 1) * res_x + (res_x - 1) == res_x * res_y - 1) by (nonlinear_arith);
    if spec_ends_pass(i, res_x * res_y) {
        let p = choose|p: int|
            0 <= p < n_rays_per_pixel && i == #[trigger] (p * (res_x * res_y)) + (res_y - 1) * res_x + (res_x - 1);
        assert(i == (p * (res_x * res_y)) + (res_x * res_y - 1));
    }
    if exists|p: int| 0 <= p < n_rays_per_pixel && i == #[trigger] (p * (res_x * res_y)) + (res_x * res_y - 1) {
        let p = choose|p: int| 0 <= p < n_rays_per_pixel && i == #[trigger] (p * (res_x * res_y)) + (res_x * res_y - 1);
        assert(i == (p * (res_x * res_y)) + (res_y - 1) * res_x + (res_x - 1));
    }
}

/// Number of rays among `first .. end` that end a pass over all `n_pixels`
/// pixels.
pub open spec fn passes_ended(first: int, end: int, n_pixels: int) -> int
    decreases end - first,
{
    if end <= first {
        0
    } else {
        passes_ended(first, end - 1, n_pixels) + if spec_ends_pass(end - 1, n_pixels) {
            1int
        } else {
            0int
        }
    }
}

/// The rays `first .. end` end as many passes as there are multiples of
/// `n_pixels` among `first + 1 ..= end`: `end / n_pixels - first / n_pixels`.
pub proof fn lemma_passes_ended_between(first: int, end: int, n_pixels: int)
    requires
        0 <= first <= end,
        0 < n_pixels,
    ensures
        passes_ended(first, end, n_pixels) == end / n_pixels - first / n_pixels,
    decreases end - first,
{
    if first < end {
        lemma_passes_ended_between(first, end - 1, n_pixels);
        let q = (end - 1) / n_pixels;
        let r = (end - 1) % n_pixels;
        lemma_fundamental_div_mod(end - 1, n_pixels);
        assert(end - 1 == n_pixels * q + r);
        if r == n_pixels - 1 {
            assert(end == (q + 1) * n_pixels + 0) by (nonlinear_arith)
                requires end - 1 == n_pixels * q + r, r == n_pixels - 1;
            lemma_fundamental_div_mod_converse(end, n_pixels, q + 1, 0);
        } else {
            assert(end == q * n_pixels + (r + 1)) by (nonlinear_arith)
                requires end - 1 == n_pixels * q + r;
            lemma_fundamental_div_mod_converse(end, n_pixels, q, r + 1);
        }
    }
}

/// Number of passes that the first `m` of `n_threads` threads end, when
/// `total` rays are spread over them and a pass covers `n_pixels` rays.
pub open spec fn passes_of_threads(total: int, n_threads: int, m: int, n_pixels: int) -> int
    decreases m,
{
    if m <= 0 {
        0
    } else {
        passes_of_threads(total, n_threads, m - 1, n_pixels) + passes_ended(
            spec_range_start(total, n_threads, m - 1),
            spec_range_start(total, n_threads, m),
            n_pixels,
        )
    }
}

/// However the rays of an image are spread over the threads, the threads
/// together end one pass per ray through each pixel: `n_rays_per_pixel`
/// passes in all.
pub proof fn lemma_threads_end_every_pass(res_x: int, res_y: int, n_rays_per_pixel: int, n_threads: int)
    requires
        0 < res_x,
        0 < res_y,
        0 <= n_rays_per_pixel,
        0 < n_threads,
    ensures
        passes_ended(0, spec_total_rays(res_x, res_y, n_rays_per_pixel), res_x * res_y) == n_rays_per_pixel,
        passes_of_threads(spec_total_rays(res_x, res_y, n_rays_per_pixel), n_threads, n_threads, res_x * res_y)
            == n_rays_per_pixel,
{
    let n = res_x * res_y;
    let total = spec_total_rays(res_x, res_y, n_rays_per_pixel);
    assert(n > 0) by (nonlinear_arith)
        requires n == res_x * res_y, 0 < res_x, 0 < res_y;
    assert(total == n_rays_per_pixel * n + 0) by (nonlinear_arith)
        requires n == res_x * res_y, total == res_x * res_y * n_rays_per_pixel;
    assert(total >= 0) by (nonlinear_arith)
        requires total == n_rays_per_pixel * n + 0, n > 0, n_rays_per_pixel >= 0;
    lemma_passes_ended_between(0, total, n);
    lemma_fundamental_div_mod_converse(total, n, n_rays_per_pixel, 0);
    lemma_fundamental_div_mod_converse(0, n, 0, 0);
    lemma_threads_passes_so_far(total, n_threads, n_threads, n);
    lemma_ranges_span_all_rays(total, n_threads);
}

proof fn lemma_threads_passes_so_far(total: int, n_threads: int, m: int, n_pixels: int)
    requires
        0 <= total,
        0 < n_threads,
        0 <= m,
        0 < n_pixels,
    ensures
        passes_of_threads(total, n_threads, m, n_pixels) == spec_range_start(total, n_threads, m) / n_pixels,
    decreases m,
{
    lemma_ranges_span_all_rays(total, n_threads);
    if m == 0 {
        lemma_fundamental_div_mod_converse(0, n_pixels, 0, 0);
    } else {
        lemma_threads_passes_so_far(total, n_threads, m - 1, n_pixels);
        lemma_range_start_monotone(total, n_threads, 0, m - 1);
        lemma_range_start_monotone(total, n_threads, m - 1, m);
        lemma_passes_ended_between(
            spec_range_start(total, n_threads, m - 1),
            spec_range_start(total, n_threads, m),
            n_pixels,
        );
    }
}

/// The color that `plus`, starting from `start`, accumulates over `colors`
/// in their order.
pub open spec fn sum_of<C, FP: Fn(C, C) -> C>(plus: FP, start: C, colors: Seq<C>) -> C
    decreases colors.len(),
{
    if colors.len() == 0 {
        start
    } else {
        plus_at(plus, sum_of(plus, start, colors.drop_last()), colors.last())
    }
}

/// The colors that the rays `first ..` bring back to pixel `(x, y)`, in ray
/// order, when ray `first + k` brings back `hits[k]` (nothing where it misses
/// the scene).
pub open spec fn pixel_colors<C>(
    hits: Seq<Option<C>>,
    first: int,
    res_x: int,
    res_y: int,
    x: int,
    y: int,
) -> Seq<C>
    decreases hits.len(),
{
    if hits.len() == 0 {
        Seq::empty()
    } else {
        let earlier = pixel_colors(hits.drop_last(), first, res_x, res_y, x, y);
        let i = first + hits.len() - 1;
        if spec_pixel_of_ray(i, res_x, res_y) == (x, y) && hits.last() is Some {
            earlier.push(hits.last()->0)
        } else {
            earlier
        }
    }
}

/// How the colors of a pixel grow ray by ray: no ray has brought a color
/// before the first, and the next ray, number `first + hits.len()`, adds its
/// color to the end of the colors of its own pixel when it hits the scene,
/// whichever ray of a pass it is, and leaves every other pixel as it was.
pub proof fn lemma_pixel_colors_grow<C>(
    hits: Seq<Option<C>>,
    hit: Option<C>,
    first: int,
    res_x: int,
    res_y: int,
    x: int,
    y: int,
)
    ensures
        pixel_colors(Seq::<Option<C>>::empty(), first, res_x, res_y, x, y) == Seq::<C>::empty(),
        pixel_colors(hits.push(hit), first, res_x, res_y, x, y) == if hit is Some
            && spec_pixel_of_ray(first + hits.len(), res_x, res_y) == (x, y) {
            pixel_colors(hits, first, res_x, res_y, x, y).push(hit->0)
        } else {
            pixel_colors(hits, first, res_x, res_y, x, y)
        },
{
    assert(hits.push(hit).drop_last() =~= hits);
}

/// Traces the rays of `rays` through an image of `res_x` x `res_y` pixels and
/// accumulates their colors, starting from `zero` at every pixel.
///
/// Each ray number is mapped to its pixel ([`pixel_of_ray`]); `trace(x, y)`
/// traces a ray through pixel `(x, y)` and gives the color it brings back, if
/// it hits the scene, which `plus` adds to the pixel; after the last ray of
/// each pass over the image, `pass_done()` is called. Every pixel ends up
/// with the sum, from `zero`, of the colors of the rays through it, in ray
/// order, for colors that `trace` may give back for those rays. Besides the
/// grid, the number of passes that were reported by `pass_done()` is returned:
/// one for each ray of `rays` that ends a pass.
pub fn trace_rays<C: Copy, FT, FP, FD>(
    rays: Range<u64>,
    res_x: u32,
    res_y: u32,
    zero: C,
    trace: &FT,
    plus: &FP,
    pass_done: &FD,
) -> (traced: (ColorStack<C>, u64)) where
    FT: Fn(usize, usize) -> Option<C>,
    FP: Fn(C, C) -> C,
    FD: Fn(),

    requires
        rays.start < rays.end ==> 0 < res_x && 0 < res_y,
        forall|x: usize, y: usize| #[trigger] trace.requires((x, y)),
        forall|a: C, b: C| #[trigger] plus.requires((a, b)),
        plus_is_function(*plus),
        pass_done.requires(()),
    ensures
        is_rectangular(traced.0@),
        traced.1 == passes_ended(rays.start as int, rays.end as int, res_x * res_y),
        traced.0@.len() == res_y,
        forall|y: int| 0 <= y < res_y ==> (#[trigger] traced.0@[y]).len() == res_x,
        exists|hits: Seq<Option<C>>|
            {
                &&& hits.len() == if rays.start <= rays.end {
                    rays.end - rays.start
                } else {
                    0
                }
                &&& forall|k: int|
                    0 <= k < hits.len() ==> call_ensures(
                        *trace,
                        (
                            spec_pixel_of_ray(rays.start + k, res_x as int, res_y as int).0 as usize,
                            spec_pixel_of_ray(rays.start + k, res_x as int, res_y as int).1 as usize,
                        ),
                        #[trigger] hits[k],
                    )
                &&& forall|x: int, y: int|
                    0 <= x < res_x && 0 <= y < res_y ==> #[trigger] traced.0@[y][x] == sum_of(
                        *plus,
                        zero,
                        pixel_colors(hits, rays.start as int, res_x as int, res_y as int, x, y),
                    )
            },
{
    let mut stack = ColorStack::new(res_x, res_y, zero);
    if rays.start >= rays.end {
        proof {
            let hits = Seq::<Option<C>>::empty();
            assert forall|x: int, y: int| 0 <= x < res_x && 0 <= y < res_y implies #[trigger] stack@[y][x]
                == sum_of(*plus, zero, pixel_colors(hits, rays.start as int, res_x as int, res_y as int, x, y)) by {}
            assert(hits.len() == if rays.start <= rays.end {
                rays.end - rays.start
            } else {
                0
            });
            assert(forall|k: int|
                0 <= k < hits.len() ==> call_ensures(
                    *trace,
                    (
                        spec_pixel_of_ray(rays.start + k, res_x as int, res_y as int).0 as usize,
                        spec_pixel_of_ray(rays.start + k, res_x as int, res_y as int).1 as usize,
                    ),
                    #[trigger] hits[k],
                ));
        }
        return (stack, 0);
    }
    proof {
        lemma_mul_upper_bound(res_x as int, u32::MAX as int, res_y as int, u32::MAX as int);
    }
    let n_pixels: u64 = (res_x as u64) * (res_y as u64);
    assert(n_pixels > 0) by (nonlinear_arith)
        requires n_pixels == res_x * res_y, 0 < res_x, 0 < res_y;
    let ghost mut hits: Seq<Option<C>> = Seq::empty();
    let mut passes: u64 = 0;
    let mut i: u64 = rays.start;
    while i < rays.end
        invariant
            rays.start <= i,
            i <= rays.end || i == rays.start,
            hits.len() == i - rays.start,
            passes == passes_ended(rays.start as int, i as int, n_pixels as int),
            passes <= i - rays.start,
            n_pixels == res_x * res_y,
            0 < res_x,
            0 < res_y,
            0 < n_pixels,
            forall|x: usize, y: usize| #[trigger] trace.requires((x, y)),
            forall|a: C, b: C| #[trigger] plus.requires((a, b)),
            plus_is_function(*plus),
            pass_done.requires(()),
            is_rectangular(stack@),
            stack@.len() == res_y,
            grid_width(stack@) == res_x,
            forall|k: int|
                0 <= k < hits.len() ==> call_ensures(
                    *trace,
                    (
                        spec_pixel_of_ray(rays.start + k, res_x as int, res_y as int).0 as usize,
                        spec_pixel_of_ray(rays.start + k, res_x as int, res_y as int).1 as usize,
                    ),
                    #[trigger] hits[k],
                ),
            forall|x: int, y: int|
                0 <= x < res_x && 0 <= y < res_y ==> #[trigger] stack@[y][x] == sum_of(
                    *plus,
                    zero,
                    pixel_colors(hits, rays.start as int, res_x as int, res_y as int, x, y),
                ),
        decreases rays.end - i,
    {
        let (x, y) = pixel_of_ray(i, res_x, res_y);
        let ghost before = stack@;
        let ghost earlier_hits = hits;
        let hit = trace(x, y);
        proof {
            hits = hits.push(hit);
            assert(hits.drop_last() =~= earlier_hits);
        }
        if let Some(color) = hit {
            stack.accumulate(x, y, color, plus);
        }
        proof {
            assert forall|k: int| 0 <= k < hits.len() implies call_ensures(
                *trace,
                (
                    spec_pixel_of_ray(rays.start + k, res_x as int, res_y as int).0 as usize,
                    spec_pixel_of_ray(rays.start + k, res_x as int, res_y as int).1 as usize,
                ),
                #[trigger] hits[k],
            ) by {
                if k < earlier_hits.len() {
                    assert(hits[k] == earlier_hits[k]);
                }
            }
            assert forall|px: int, py: int| 0 <= px < res_x && 0 <= py < res_y implies #[trigger] stack@[py][px]
                == sum_of(*plus, zero, pixel_colors(hits, rays.start as int, res_x as int, res_y as int, px, py)) by {
                let earlier = pixel_colors(earlier_hits, rays.start as int, res_x as int, res_y as int, px, py);
                assert(before[py][px] == sum_of(*plus, zero, earlier));
                if px == x && py == y && hit is Some {
                    let c = hit->0;
                    let now = pixel_colors(hits, rays.start as int, res_x as int, res_y as int, px, py);
                    assert(now == earlier.push(c));
                    assert(now.drop_last() =~= earlier);
                    let sum = choose|sum: C|
                        #[trigger] call_ensures(*plus, (before[py][px], c), sum) && stack@ == before.update(
                            py,
                            before[py].update(px, sum),
                        );
                    assert(stack@[py][px] == sum);
                    assert(plus_at(*plus, before[py][px], c) == sum);
                } else {
                    assert(stack@[py][px] == before[py][px]);
                }
            }
        }
        if ends_pass(i, n_pixels) {
            pass_done();
            passes = passes + 1;
        }
        i = i + 1;
    }
    (stack, passes)
}

} // verus!
