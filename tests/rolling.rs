use pendulum_fractal::rolling::RollingAverage;

#[test]
fn keeps_only_the_last_values() {
    let mut avg = RollingAverage::new(2);
    avg.add(10);
    avg.add(20);
    avg.add(30);
    assert_eq!(avg.get(), 25);
}

#[test]
fn empty_window_is_zero() {
    let avg = RollingAverage::new(5);
    assert_eq!(avg.get(), 0);
}

#[test]
fn mean_rounds_down() {
    let mut avg = RollingAverage::new(3);
    avg.add(1);
    avg.add(2);
    assert_eq!(avg.get(), 1);
    avg.add(2);
    assert_eq!(avg.get(), 1);
    avg.add(7);
    assert_eq!(avg.get(), 3);
}

#[test]
fn zero_capacity_keeps_nothing() {
    let mut avg = RollingAverage::new(0);
    avg.add(40);
    assert_eq!(avg.get(), 0);
}

#[test]
fn large_values_do_not_overflow() {
    let mut avg = RollingAverage::new(4);
    for _ in 0..4 {
        avg.add(u32::MAX);
    }
    assert_eq!(avg.get(), u32::MAX);
}
