use pendulum_fractal::cell::{Color, DoublePendulum};

fn stopped_at(x: u64, y: u64, width: u64) -> DoublePendulum {
    let mut c = DoublePendulum::new(x, y, width);
    c.stopped = true;
    c
}

#[test]
fn test_adjacent() {
    let width = 2048;
    let mut upper = DoublePendulum::new2(width / 4, width / 4, width, 1);
    upper.id = 1;
    let mut lower = DoublePendulum::new2(width / 4, width / 4 * 3, width, 1);
    lower.id = 2;
    assert!(upper.adjacent(&lower));
    assert!(lower.adjacent(&upper));
    let mut shifted = DoublePendulum::new2(width / 4, width / 4 * 3, width, 1);
    shifted.id = 2;
    shifted.y += 1;
    assert!(!upper.adjacent(&shifted));
    assert!(!shifted.adjacent(&upper));
    let mut right = DoublePendulum::new2(width / 4 * 3, width / 4, width, 1);
    right.id = 3;
    assert!(upper.adjacent(&right));
    assert!(right.adjacent(&upper));
}

#[test]
fn footprint_halves_with_depth() {
    assert_eq!(DoublePendulum::new2(1024, 1024, 2048, 0).width(), 1024);
    assert_eq!(DoublePendulum::new2(512, 512, 2048, 1).width(), 512);
    assert_eq!(DoublePendulum::new2(0, 0, 2048, 3).width(), 128);
}

#[test]
fn adjacency_is_symmetric_for_unequal_cells() {
    let big = DoublePendulum::new(512, 512, 512);
    let small = DoublePendulum::new(1280, 256, 256);
    assert!(big.adjacent(&small));
    assert!(small.adjacent(&big));
    let far = DoublePendulum::new(1281, 256, 256);
    assert!(!big.adjacent(&far));
    assert!(!far.adjacent(&big));
    let overlapping = DoublePendulum::new(600, 600, 512);
    assert!(!big.adjacent(&overlapping));
    assert!(!overlapping.adjacent(&big));
}

#[test]
fn split_root_gives_four_quadrants() {
    let mut root = stopped_at(1024, 1024, 1024);
    root.color = Color::Hue { turn: 3, period: 10 };
    let kids = root.split(2048, 4);
    let anchors: Vec<(u64, u64)> = kids.iter().map(|k| (k.x, k.y)).collect();
    assert_eq!(anchors, vec![(512, 512), (512, 1536), (1536, 512), (1536, 1536)]);
    for k in &kids {
        assert_eq!(k.width, 512);
        assert_eq!(k.color, Color::Hue { turn: 3, period: 10 });
        assert!(!k.stopped);
        assert_eq!(k.steps, 0);
    }
}

#[test]
fn split_drops_children_outside_the_domain() {
    let edge = stopped_at(256, 1024, 256);
    let kids = edge.split(2048, 4);
    assert_eq!(kids.len(), 4);
    let corner = stopped_at(100, 100, 256);
    let kids = corner.split(2048, 4);
    let anchors: Vec<(u64, u64)> = kids.iter().map(|k| (k.x, k.y)).collect();
    assert_eq!(anchors, vec![(228, 228)]);
    let far = stopped_at(2000, 1024, 256);
    let kids = far.split(2048, 4);
    let anchors: Vec<(u64, u64)> = kids.iter().map(|k| (k.x, k.y)).collect();
    assert_eq!(anchors, vec![(1872, 896), (1872, 1152)]);
}

#[test]
fn split_stops_at_the_minimum_footprint() {
    assert!(stopped_at(1024, 1024, 3).split(2048, 4).is_empty());
    assert!(stopped_at(1024, 1024, 4).split(2048, 4).is_empty());
    assert_eq!(stopped_at(1024, 1024, 5).split(2048, 4).len(), 4);
    assert!(stopped_at(1024, 1024, 1).split(2048, 0).is_empty());
}

#[test]
fn point_inside_is_strict() {
    let c = DoublePendulum::new(100, 100, 10);
    assert!(c.point_inside(100, 100));
    assert!(c.point_inside(91, 109));
    assert!(!c.point_inside(90, 100));
    assert!(!c.point_inside(100, 110));
}

#[test]
fn budget_is_bounded_by_the_ceiling() {
    let mut c = DoublePendulum::new(0, 0, 8);
    assert_eq!(c.step_budget(100, 1000), 100);
    c.steps = 950;
    assert_eq!(c.step_budget(100, 1000), 50);
    c.steps = 1000;
    assert_eq!(c.step_budget(100, 1000), 0);
    c.steps = 10;
    c.stopped = true;
    assert_eq!(c.step_budget(100, 1000), 0);
}

#[test]
fn flip_stops_without_expiring() {
    let mut c = DoublePendulum::new(0, 0, 8);
    c.update(100, 1000, 37, true);
    assert!(c.stopped);
    assert!(!c.expired);
    assert_eq!(c.steps, 37);
}

#[test]
fn ceiling_with_steps_left_expires() {
    let mut c = DoublePendulum::new(0, 0, 8);
    c.steps = 950;
    c.update(100, 1000, 50, false);
    assert!(c.stopped);
    assert!(c.expired);
    assert_eq!(c.steps, 1000);
}

#[test]
fn ceiling_reached_on_the_last_step_expires_at_once() {
    let mut c = DoublePendulum::new(0, 0, 8);
    c.steps = 900;
    c.update(100, 1000, 100, false);
    assert!(c.stopped);
    assert!(c.expired);
    assert_eq!(c.steps, 1000);
    let mut fresh = DoublePendulum::new(0, 0, 8);
    fresh.update(10, 10, 10, false);
    assert!(fresh.stopped && fresh.expired);
}

#[test]
fn stopped_cell_stays_stopped() {
    let mut c = DoublePendulum::new(0, 0, 8);
    c.update(100, 1000, 5, true);
    c.update(100, 1000, 0, false);
    assert!(c.stopped);
    assert_eq!(c.steps, 5);
}

#[test]
fn colour_follows_step_count() {
    let mut c = DoublePendulum::new(0, 0, 8);
    c.steps = 6007;
    c.update_color(1, 6000);
    assert_eq!(c.color, Color::Hue { turn: 7, period: 6000 });
    c.update_color(3, 6000);
    assert_eq!(c.color, Color::Hue { turn: 21, period: 6000 });
    c.expired = true;
    c.update_color(1, 6000);
    assert_eq!(c.color, Color::Gray);
}
