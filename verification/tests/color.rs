use rusty_ray_tracer::color::ColorStack;
use rusty_ray_tracer::utilities::random3;

#[test]
fn new_grid_holds_the_start_color_everywhere() {
    let stack = ColorStack::new(4, 2, 0.5f64);
    assert_eq!(stack.width(), 4);
    assert_eq!(stack.height(), 2);
    assert_eq!(stack.color(3, 1), 0.5);
}

#[test]
fn accumulation_adds_to_one_pixel() {
    let mut stack = ColorStack::new(2, 2, 0u32);
    stack.accumulate(1, 0, 5, &|a: u32, b: u32| a + b);
    stack.accumulate(1, 0, 2, &|a: u32, b: u32| a + b);
    assert_eq!(stack.color(1, 0), 7);
    assert_eq!(stack.color(0, 1), 0);
}

#[test]
fn grids_add_pixel_by_pixel() {
    let plus = |a: u32, b: u32| a + b;
    let mut a = ColorStack::new(3, 2, 1u32);
    a.accumulate(2, 1, 4, &plus);
    let mut b = ColorStack::new(3, 2, 10u32);
    b.accumulate(0, 0, 100, &plus);
    let sum = a.add(b, &plus);
    assert_eq!(sum.width(), 3);
    assert_eq!(sum.height(), 2);
    assert_eq!(sum.color(0, 0), 111);
    assert_eq!(sum.color(2, 1), 15);
    assert_eq!(sum.color(1, 1), 11);
}

#[test]
fn add_assign_replaces_by_the_sum() {
    let plus = |a: (u8, u8), b: (u8, u8)| (a.0 + b.0, a.1 + b.1);
    let mut a = ColorStack::new(1, 1, (1u8, 2u8));
    a.add_assign(ColorStack::new(1, 1, (3u8, 4u8)), &plus);
    assert_eq!(a.color(0, 0), (4, 6));
}

#[test]
fn random3_stays_between_0_and_2() {
    let mut seen = [false; 3];
    for _ in 0..2000 {
        let v = random3();
        assert!(v <= 2);
        seen[v as usize] = true;
    }
    assert!(seen.iter().all(|&s| s));
}

#[test]
fn add_assign_gives_what_add_gives() {
    let plus = |a: u32, b: u32| a * 10 + b;
    let mut first = ColorStack::new(2, 2, 1u32);
    first.accumulate(1, 1, 3, &plus);
    let mut a = ColorStack::new(2, 2, 1u32);
    a.accumulate(1, 1, 3, &plus);
    let mut b = ColorStack::new(2, 2, 2u32);
    b.accumulate(0, 1, 7, &plus);
    let mut c = ColorStack::new(2, 2, 2u32);
    c.accumulate(0, 1, 7, &plus);
    let sum = first.add(b, &plus);
    a.add_assign(c, &plus);
    for y in 0..2 {
        for x in 0..2 {
            assert_eq!(a.color(x, y), sum.color(x, y));
        }
    }
    assert_eq!(sum.color(0, 0), 12);
    assert_eq!(sum.color(0, 1), 1 * 10 + 27);
}
