use rusty_ray_tracer::render::{
    ends_pass, pixel_of_ray, ray_range_of_thread, ray_ranges, total_rays, trace_rays,
    within_bounce_limit,
};
use std::cell::Cell;

#[test]
fn total_rays_multiplies_resolution_and_samples() {
    assert_eq!(total_rays(4, 3, 5), 60);
    assert_eq!(total_rays(2560, 1440, 100), 368_640_000);
    assert_eq!(total_rays(0, 3, 5), 0);
}

#[test]
fn thread_ranges_give_the_remainder_to_the_first_threads() {
    assert_eq!(ray_range_of_thread(10, 3, 0), 0..4);
    assert_eq!(ray_range_of_thread(10, 3, 1), 4..7);
    assert_eq!(ray_range_of_thread(10, 3, 2), 7..10);
}

#[test]
fn thread_ranges_split_evenly_without_remainder() {
    assert_eq!(ray_ranges(12, 4), vec![0..3, 3..6, 6..9, 9..12]);
}

#[test]
fn thread_ranges_with_more_threads_than_rays() {
    assert_eq!(ray_ranges(2, 4), vec![0..1, 1..2, 2..2, 2..2]);
}

#[test]
fn one_thread_takes_all_rays() {
    assert_eq!(ray_ranges(u64::MAX, 1), vec![0..u64::MAX]);
}

#[test]
fn thread_ranges_cover_all_rays_without_overlap() {
    let total: u64 = 1_000_003;
    let n: u8 = 7;
    let ranges = ray_ranges(total, n);
    assert_eq!(ranges.len(), 7);
    assert_eq!(ranges[0].start, 0);
    assert_eq!(ranges[6].end, total);
    for i in 1..ranges.len() {
        assert_eq!(ranges[i - 1].end, ranges[i].start);
    }
    for r in &ranges {
        let len = r.end - r.start;
        assert!(len == total / 7 || len == total / 7 + 1);
    }
}

#[test]
fn pixels_are_walked_row_by_row() {
    assert_eq!(pixel_of_ray(0, 3, 2), (0, 0));
    assert_eq!(pixel_of_ray(2, 3, 2), (2, 0));
    assert_eq!(pixel_of_ray(3, 3, 2), (0, 1));
    assert_eq!(pixel_of_ray(5, 3, 2), (2, 1));
    assert_eq!(pixel_of_ray(6, 3, 2), (0, 0));
    assert_eq!(pixel_of_ray(7, 3, 2), (1, 0));
}

#[test]
fn every_pass_reaches_every_pixel_once() {
    let (w, h) = (5u32, 4u32);
    let n = (w * h) as u64;
    for pass in 0..3u64 {
        let mut seen = vec![vec![0u32; w as usize]; h as usize];
        for i in pass * n..(pass + 1) * n {
            let (x, y) = pixel_of_ray(i, w, h);
            seen[y][x] += 1;
        }
        assert!(seen.iter().all(|row| row.iter().all(|&c| c == 1)));
    }
}

#[test]
fn a_pass_ends_at_the_last_pixel() {
    assert!(ends_pass(5, 6));
    assert!(ends_pass(11, 6));
    assert!(!ends_pass(4, 6));
    assert!(!ends_pass(6, 6));
    assert!(ends_pass(0, 1));
}

#[test]
fn traced_colors_are_accumulated_per_pixel() {
    let passes = Cell::new(0u32);
    let (stack, reported) = trace_rays(
        0..12,
        3,
        2,
        0u64,
        &|x: usize, y: usize| Some((10 * y + x) as u64),
        &|a: u64, b: u64| a + b,
        &|| passes.set(passes.get() + 1),
    );
    assert_eq!(stack.height(), 2);
    assert_eq!(stack.width(), 3);
    assert_eq!(stack.color(0, 0), 0);
    assert_eq!(stack.color(2, 0), 4);
    assert_eq!(stack.color(1, 1), 22);
    assert_eq!(passes.get(), 2);
    assert_eq!(reported, 2);
}

#[test]
fn pixels_without_rays_or_hits_keep_the_start_color() {
    let passes = Cell::new(0u32);
    let (stack, reported) = trace_rays(
        2..5,
        3,
        2,
        7u64,
        &|x: usize, _y: usize| if x == 0 { None } else { Some(1) },
        &|a: u64, b: u64| a + b,
        &|| passes.set(passes.get() + 1),
    );
    assert_eq!(stack.color(0, 0), 7);
    assert_eq!(stack.color(1, 0), 7);
    assert_eq!(stack.color(2, 0), 8);
    assert_eq!(stack.color(0, 1), 7);
    assert_eq!(stack.color(1, 1), 8);
    assert_eq!(stack.color(2, 1), 7);
    assert_eq!(passes.get(), 0);
    assert_eq!(reported, 0);
}

#[test]
fn progress_advances_once_per_pass() {
    let (w, h, n) = (4u32, 3u32, 5u64);
    let total = total_rays(w, h, n);
    let pixels = (w * h) as u64;
    let ends: Vec<u64> = (0..total).filter(|&i| ends_pass(i, pixels)).collect();
    assert_eq!(ends, vec![11, 23, 35, 47, 59]);
    for &i in &ends {
        assert_eq!(pixel_of_ray(i, w, h), (3, 2));
    }
}

#[test]
fn each_pixel_gets_its_rays_over_all_threads() {
    let (w, h, n) = (3u32, 2u32, 4u64);
    let total = total_rays(w, h, n);
    let mut count = vec![vec![0u64; w as usize]; h as usize];
    for range in ray_ranges(total, 5) {
        for i in range {
            let (x, y) = pixel_of_ray(i, w, h);
            count[y][x] += 1;
        }
    }
    assert!(count.iter().all(|row| row.iter().all(|&c| c == n)));
}

#[test]
fn bounces_go_on_up_to_the_limit() {
    assert!(within_bounce_limit(0, 0));
    assert!(within_bounce_limit(3, 3));
    assert!(!within_bounce_limit(4, 3));
    assert!(within_bounce_limit(2, 3));
}

#[test]
fn no_rays_give_an_untouched_grid() {
    let passes = Cell::new(0u32);
    let (stack, reported) = trace_rays(
        0..0,
        0,
        2,
        1u64,
        &|_x: usize, _y: usize| Some(5),
        &|a: u64, b: u64| a + b,
        &|| passes.set(passes.get() + 1),
    );
    assert_eq!(stack.height(), 2);
    assert_eq!(stack.width(), 0);
    assert_eq!(passes.get(), 0);
    assert_eq!(reported, 0);
}

#[test]
fn passes_are_counted_where_a_range_crosses_them() {
    let passes = Cell::new(0u32);
    let (stack, reported) = trace_rays(
        2..14,
        3,
        2,
        0u64,
        &|_x: usize, _y: usize| Some(1),
        &|a: u64, b: u64| a + b,
        &|| passes.set(passes.get() + 1),
    );
    // rays 5 and 11 end a pass over the six pixels
    assert_eq!(passes.get(), 2);
    assert_eq!(reported, 2);
    assert_eq!(stack.color(0, 0), 2);
    assert_eq!(stack.color(2, 0), 2);
    assert_eq!(stack.color(1, 1), 2);
}

#[test]
fn all_threads_together_end_one_pass_per_sample() {
    let (w, h, n) = (3u32, 2u32, 5u64);
    let total = total_rays(w, h, n);
    let mut reported_in_all = 0u64;
    for range in ray_ranges(total, 4) {
        let (_stack, reported) = trace_rays(
            range,
            w,
            h,
            0u64,
            &|_x: usize, _y: usize| None,
            &|a: u64, b: u64| a + b,
            &|| {},
        );
        reported_in_all += reported;
    }
    assert_eq!(reported_in_all, n);
}
