use pendulum_fractal::cell::{Color, DoublePendulum};
use pendulum_fractal::family::{Config, GenerationError, PendulumFamily, Place, StepOutcome};

fn config() -> Config {
    Config {
        color_step: 1,
        color_mod: 6000,
        dive_num: 82,
        dive_den: 100,
        max_step: 460_000,
        min_pixel: 4,
        max_cells: 1_000_000,
    }
}

fn seeded() -> PendulumFamily {
    let mut f = PendulumFamily::new(config(), 2048);
    let id = f.add(DoublePendulum::new2(1024, 1024, 2048, 0));
    assert_eq!(id, 1);
    f
}

fn run(id: usize, taken: usize, flipped: bool) -> StepOutcome {
    StepOutcome { id, taken, flipped }
}

#[test]
fn root_is_split_on_the_first_generation() {
    let mut f = seeded();
    assert_eq!(f.active_count(), 1);
    let r = f.update(&vec![run(1, 100, false)], 100).unwrap();
    assert_eq!(r.spawned, 4);
    assert_eq!(r.update_steps, 100);
    assert_eq!(f.active_count(), 4);
    assert_eq!(f.done_count(), 1);
    assert_eq!(f.len(), 4);
    let root = f.cell_at(1);
    assert!(root.stopped);
    assert_eq!(root.steps, 100);
    assert_eq!(root.childs, vec![2, 3, 4, 5]);
    assert!(f.is_marked(1));
    for id in 2..=5 {
        let c = f.cell_at(id);
        assert_eq!(c.parent_id, 1);
        assert_eq!(c.width, 512);
        assert_eq!(f.place_at(id), Place::Active);
        let mut nbs = c.neighbors.clone();
        nbs.sort();
        let expected: Vec<usize> = (2..=5).filter(|&s| s != id).collect();
        assert_eq!(nbs, expected);
    }
}

#[test]
fn root_that_flips_is_split_too() {
    let mut f = seeded();
    let r = f.update(&vec![run(1, 40, true)], 100).unwrap();
    assert_eq!(r.stopped, 1);
    assert_eq!(r.spawned, 4);
    assert_eq!(f.active_count(), 4);
    assert_eq!(f.cell_at(1).color, Color::Hue { turn: 40, period: 6000 });
}

#[test]
fn disagreeing_neighbours_are_both_split() {
    let mut f = seeded();
    f.update(&vec![run(1, 100, false)], 100).unwrap();
    let outs = vec![run(2, 5, true), run(3, 100, true), run(4, 100, false), run(5, 100, false)];
    let r = f.update(&outs, 100).unwrap();
    assert_eq!(r.stopped, 2);
    assert_eq!(r.spawned, 8);
    assert_eq!(r.removed, 0);
    assert_eq!(f.active_count(), 10);
    assert_eq!(f.done_count(), 3);
    assert!(f.is_marked(2));
    assert!(f.is_marked(3));
    assert!(!f.is_marked(4));
    assert_eq!(f.cell_at(2).childs.len(), 4);
    assert_eq!(f.cell_at(3).childs.len(), 4);
    assert_eq!(f.cell_at(2).steps, 5);
    assert_eq!(f.cell_at(3).steps, 100);
}

#[test]
fn agreeing_neighbours_are_not_split() {
    let mut f = seeded();
    f.update(&vec![run(1, 100, false)], 100).unwrap();
    let outs = vec![run(2, 90, true), run(3, 100, true), run(4, 100, false), run(5, 100, false)];
    let r = f.update(&outs, 100).unwrap();
    assert_eq!(r.spawned, 0);
    assert_eq!(f.active_count(), 2);
}

#[test]
fn neighbour_lists_stay_symmetric() {
    let mut f = seeded();
    f.update(&vec![run(1, 100, false)], 100).unwrap();
    let outs = vec![run(2, 5, true), run(3, 100, true), run(4, 100, false), run(5, 100, false)];
    f.update(&outs, 100).unwrap();
    for id in 1..=f.total() {
        if f.place_at(id) == Place::Removed {
            continue;
        }
        let c = f.cell_at(id);
        let mut seen = c.neighbors.clone();
        seen.sort();
        seen.dedup();
        assert_eq!(seen.len(), c.neighbors.len());
        for &n in &c.neighbors {
            if f.place_at(n) != Place::Removed {
                assert!(f.cell_at(n).neighbors.contains(&id));
            }
        }
    }
}

#[test]
fn resolved_parent_is_removed() {
    let mut f = seeded();
    f.update(&vec![run(1, 100, false)], 100).unwrap();
    assert!(!f.can_remove(1));
    let outs = vec![run(2, 50, true), run(3, 50, true), run(4, 100, false), run(5, 100, false)];
    f.update(&outs, 100).unwrap();
    assert!(!f.can_remove(1));
    let outs = vec![run(4, 1, true), run(5, 1, true)];
    let r = f.update(&outs, 100).unwrap();
    assert_eq!(r.removed, 1);
    assert_eq!(f.place_at(1), Place::Removed);
    assert!(!f.can_remove(1));
}

#[test]
fn can_remove_needs_every_child_done() {
    let mut f = seeded();
    assert!(!f.can_remove(0));
    assert!(!f.can_remove(1));
    assert!(!f.can_remove(7));
    f.update(&vec![run(1, 100, false)], 100).unwrap();
    assert!(!f.can_remove(1));
    assert!(!f.can_remove(2));
}

#[test]
fn mismatched_outcomes_change_nothing() {
    let mut f = seeded();
    f.update(&vec![run(1, 100, false)], 100).unwrap();
    let cases = vec![
        vec![run(2, 5, true)],
        vec![run(3, 5, true), run(2, 5, true), run(4, 1, false), run(5, 1, false)],
        vec![run(2, 101, true), run(3, 5, true), run(4, 1, false), run(5, 1, false)],
        vec![run(2, 0, true), run(3, 5, true), run(4, 1, false), run(5, 1, false)],
        vec![run(1, 5, true), run(3, 5, true), run(4, 1, false), run(5, 1, false)],
        vec![run(2, 5, true), run(3, 5, true), run(4, 1, false), run(9, 1, false)],
        vec![run(2, 5, true), run(3, 5, true), run(4, 99, false), run(5, 100, false)],
    ];
    for outs in cases {
        assert_eq!(f.update(&outs, 100), Err(GenerationError::OutcomeMismatch));
        assert_eq!(f.active_count(), 4);
        assert_eq!(f.iter(), 1);
        assert_eq!(f.cell_at(2).steps, 0);
    }
}

#[test]
fn expired_cells_are_grey() {
    let mut cfg = config();
    cfg.max_step = 150;
    let mut f = PendulumFamily::new(cfg, 2048);
    f.add(DoublePendulum::new2(1024, 1024, 2048, 0));
    f.update(&vec![run(1, 100, false)], 100).unwrap();
    let outs = vec![run(2, 100, false), run(3, 100, false), run(4, 100, false), run(5, 100, false)];
    f.update(&outs, 100).unwrap();
    let outs = vec![run(2, 50, false), run(3, 50, false), run(4, 50, false), run(5, 50, false)];
    let r = f.update(&outs, 100).unwrap();
    assert_eq!(r.stopped, 4);
    for id in 2..=5 {
        let c = f.cell_at(id);
        assert!(c.expired);
        assert_eq!(c.steps, 150);
        assert_eq!(c.color, Color::Gray);
    }
}

#[test]
fn pending_cells_are_drained_once() {
    let mut f = seeded();
    f.update(&vec![run(1, 100, false)], 100).unwrap();
    assert_eq!(f.drain_pending(), vec![1]);
    assert!(f.drain_pending().is_empty());
    let outs = vec![run(2, 7, true), run(3, 100, false), run(4, 9, true), run(5, 100, false)];
    f.update(&outs, 100).unwrap();
    assert_eq!(f.drain_pending(), vec![2, 4]);
}

#[test]
fn telemetry_and_rate_are_reported() {
    let mut f = seeded();
    f.update(&vec![run(1, 100, false)], 120).unwrap();
    assert_eq!(f.update_steps(), 120);
    let outs = vec![run(2, 10, true), run(3, 30, true), run(4, 120, false), run(5, 120, false)];
    let r = f.update(&outs, 200).unwrap();
    assert_eq!(r.update_steps, 200);
    assert_eq!(r.average_steps, (100 + 10 + 30) / 3);
    assert_eq!(f.average(), 46);
    assert_eq!(f.iter(), 2);
    f.set_update_steps(400);
    assert_eq!(f.update_steps(), 400);
}

#[test]
fn cap_on_cells_stops_subdivision() {
    let mut cfg = config();
    cfg.max_cells = 3;
    let mut f = PendulumFamily::new(cfg, 2048);
    f.add(DoublePendulum::new2(1024, 1024, 2048, 0));
    let r = f.update(&vec![run(1, 100, false)], 100).unwrap();
    assert_eq!(r.spawned, 0);
    assert_eq!(f.active_count(), 0);
    assert_eq!(f.done_count(), 1);
}

#[test]
fn pick_prefers_the_smallest_footprint() {
    let mut f = seeded();
    assert_eq!(f.find_all(1000, 1000), Some(1));
    assert_eq!(f.find_all(3000, 1000), None);
    f.update(&vec![run(1, 100, false)], 100).unwrap();
    assert_eq!(f.find_all(1000, 1000), Some(2));
    assert_eq!(f.find_all(1600, 1600), Some(5));
    assert_eq!(f.find_all(1024, 1600), Some(1));
}

#[test]
fn pick_prefers_stopped_among_equal_footprints() {
    let mut f = PendulumFamily::new(config(), 2048);
    f.add(DoublePendulum::new(100, 100, 50));
    f.add(DoublePendulum::new(100, 100, 50));
    assert_eq!(f.find_all(100, 100), Some(1));
    f.update(&vec![run(1, 100, false), run(2, 5, true)], 100).unwrap();
    assert_eq!(f.find_all(100, 100), Some(2));
}

fn replay() -> Vec<(usize, bool, Color)> {
    let mut f = seeded();
    f.update(&vec![run(1, 100, false)], 100).unwrap();
    let outs = vec![run(2, 5, true), run(3, 100, true), run(4, 100, false), run(5, 100, false)];
    f.update(&outs, 100).unwrap();
    let mut outs = Vec::new();
    for id in 1..=f.total() {
        if f.place_at(id) == Place::Active {
            let c = f.cell_at(id);
            let flipped = id % 3 == 0;
            outs.push(run(id, if flipped { 1 + id % 50 } else { c.step_budget(100, 460_000) }, flipped));
        }
    }
    f.update(&outs, 150).unwrap();
    (1..=f.total())
        .map(|id| {
            let c = f.cell_at(id);
            (c.steps, c.stopped, c.color)
        })
        .collect()
}

#[test]
fn identical_runs_give_identical_cells() {
    let a = replay();
    let b = replay();
    assert!(a.len() > 5);
    assert_eq!(a, b);
}

fn assert_graph_consistent(f: &PendulumFamily) {
    for id in 1..=f.total() {
        let c = f.cell_at(id);
        let mut seen = c.neighbors.clone();
        seen.sort();
        seen.dedup();
        assert_eq!(seen.len(), c.neighbors.len(), "cell {} lists a neighbour twice", id);
        if f.place_at(id) == Place::Removed {
            continue;
        }
        for &n in &c.neighbors {
            assert_ne!(n, id);
            if f.place_at(n) != Place::Removed {
                assert!(f.cell_at(n).neighbors.contains(&id), "{} lists {} but not back", id, n);
            }
        }
    }
}

#[test]
fn graph_stays_consistent_over_generations() {
    let mut f = seeded();
    for generation in 0..6 {
        let mut outs = Vec::new();
        for id in 1..=f.total() {
            if f.place_at(id) == Place::Active {
                let budget = f.cell_at(id).step_budget(f.update_steps(), 460_000);
                let flipped = (id + generation) % 3 != 0;
                let taken = if flipped { 1 + (id * 7 + generation) % budget.max(1) } else { budget };
                outs.push(run(id, taken.min(budget), flipped && taken.min(budget) > 0));
            }
        }
        f.update(&outs, 100).unwrap();
        assert_graph_consistent(&f);
    }
    assert!(f.total() > 20);
}
