use softraster::buffer::{BLACK, BLUE, GREEN, RED};
use softraster::depth::{depth_key, DepthFrame, Sample, FARTHEST};
use softraster::frame::{Compositor, Stage};
use softraster::painter::Triangle2d;

fn key(inverse_depth: f64) -> i64 {
    depth_key(inverse_depth.to_bits())
}

fn sample(x: i32, y: i32, inverse_depth: f64, color: u32) -> Sample {
    Sample { x, y, depth: key(inverse_depth), color }
}

#[test]
fn keys_order_like_depths() {
    let depths = [
        f64::NEG_INFINITY,
        -1.0e300,
        -0.9,
        -0.5,
        -1.0e-300,
        0.0,
        1.0e-300,
        0.2,
        0.5,
        0.9,
        1.0,
        40.0,
        1.0e300,
        f64::INFINITY,
    ];
    for pair in depths.windows(2) {
        assert!(key(pair[0]) < key(pair[1]));
    }
    assert!(key(f64::NEG_INFINITY) > FARTHEST);
}

#[test]
fn keys_of_known_bit_patterns() {
    assert_eq!(depth_key(0), 0);
    assert_eq!(depth_key(1), 1);
    assert_eq!(depth_key(0x7FFF_FFFF_FFFF_FFFF), i64::MAX);
    assert_eq!(depth_key(0x8000_0000_0000_0000), -1);
    assert_eq!(depth_key(0x8000_0000_0000_0001), -2);
    assert_eq!(depth_key(u64::MAX), i64::MIN);
    assert_eq!(depth_key(1.0f64.to_bits()), 0x3FF0_0000_0000_0000);
    assert_eq!(depth_key((-1.0f64).to_bits()), -1 - 0x3FF0_0000_0000_0000);
}

#[test]
fn new_frame_has_seen_nothing() {
    let f = DepthFrame::new(3, 2).unwrap();
    assert_eq!(f.width(), 3);
    assert_eq!(f.height(), 2);
    assert_eq!(f.pixels().pixels(), &vec![BLACK; 6]);
    for y in 0..2 {
        for x in 0..3 {
            assert_eq!(f.depth_at(x, y), Some(FARTHEST));
        }
    }
    assert_eq!(f.depth_at(3, 0), None);
    assert_eq!(f.depth_at(0, 2), None);
    assert!(DepthFrame::new(usize::MAX, 3).is_none());
}

#[test]
fn nearest_sample_wins_in_any_order() {
    let s = [sample(2, 1, 0.2, RED), sample(2, 1, 0.9, GREEN), sample(2, 1, 0.5, BLUE)];
    let orders = [[0, 1, 2], [0, 2, 1], [1, 0, 2], [1, 2, 0], [2, 0, 1], [2, 1, 0]];
    for order in orders.iter() {
        let mut f = DepthFrame::new(4, 3).unwrap();
        for &i in order.iter() {
            f.plot_sample(s[i]);
        }
        assert_eq!(f.pixels().get(2, 1), Some(GREEN));
        assert_eq!(f.depth_at(2, 1), Some(key(0.9)));

        let mut g = DepthFrame::new(4, 3).unwrap();
        g.plot_samples(&order.iter().map(|&i| s[i]).collect());
        assert_eq!(g.pixels().pixels(), f.pixels().pixels());
        assert_eq!(g.depth_at(2, 1), Some(key(0.9)));
    }
}

#[test]
fn sample_touches_only_its_pixel() {
    let mut f = DepthFrame::new(4, 3).unwrap();
    f.plot_sample(Sample { x: 1, y: 2, depth: 5, color: RED });
    let mut expected = vec![BLACK; 12];
    expected[2 * 4 + 1] = RED;
    assert_eq!(f.pixels().pixels(), &expected);
    for y in 0..3 {
        for x in 0..4 {
            let d = if (x, y) == (1, 2) { 5 } else { FARTHEST };
            assert_eq!(f.depth_at(x, y), Some(d));
        }
    }
}

#[test]
fn equally_near_sample_does_not_replace() {
    let mut f = DepthFrame::new(2, 2).unwrap();
    f.plot_sample(Sample { x: 0, y: 0, depth: 7, color: RED });
    f.plot_sample(Sample { x: 0, y: 0, depth: 7, color: GREEN });
    assert_eq!(f.pixels().get(0, 0), Some(RED));
    f.plot_sample(Sample { x: 0, y: 0, depth: 6, color: BLUE });
    assert_eq!(f.pixels().get(0, 0), Some(RED));
    assert_eq!(f.depth_at(0, 0), Some(7));
    f.plot_sample(Sample { x: 0, y: 0, depth: 8, color: BLUE });
    assert_eq!(f.pixels().get(0, 0), Some(BLUE));
    assert_eq!(f.depth_at(0, 0), Some(8));
}

#[test]
fn farthest_sample_is_never_drawn() {
    let mut f = DepthFrame::new(2, 2).unwrap();
    f.plot_sample(Sample { x: 1, y: 1, depth: FARTHEST, color: RED });
    assert_eq!(f.pixels().pixels(), &vec![BLACK; 4]);
    f.plot_sample(Sample { x: 1, y: 1, depth: FARTHEST + 1, color: RED });
    assert_eq!(f.pixels().get(1, 1), Some(RED));
}

#[test]
fn sample_outside_the_grid_is_discarded() {
    let mut f = DepthFrame::new(3, 3).unwrap();
    f.plot_samples(&vec![
        Sample { x: -1, y: 1, depth: 9, color: RED },
        Sample { x: 3, y: 0, depth: 9, color: RED },
        Sample { x: 0, y: 3, depth: 9, color: RED },
        Sample { x: 1, y: -1, depth: 9, color: RED },
        Sample { x: i32::MAX, y: i32::MAX, depth: 9, color: RED },
        Sample { x: i32::MIN, y: i32::MIN, depth: 9, color: RED },
    ]);
    assert_eq!(f.pixels().pixels(), &vec![BLACK; 9]);
    for y in 0..3 {
        for x in 0..3 {
            assert_eq!(f.depth_at(x, y), Some(FARTHEST));
        }
    }
}

#[test]
fn depth_never_decreases() {
    let mut f = DepthFrame::new(2, 1).unwrap();
    let run = [4i64, -3, 10, 10, 2, 11, i64::MIN, 0];
    let mut best = FARTHEST;
    for &d in run.iter() {
        f.plot_sample(Sample { x: 1, y: 0, depth: d, color: RED });
        let now = f.depth_at(1, 0).unwrap();
        assert!(now >= best);
        best = best.max(d);
        assert_eq!(now, best);
    }
    assert_eq!(f.depth_at(0, 0), Some(FARTHEST));
}

#[test]
fn clearing_a_frame_forgets_depth() {
    let mut f = DepthFrame::new(2, 2).unwrap();
    f.plot_sample(Sample { x: 0, y: 1, depth: 100, color: RED });
    f.clear();
    assert_eq!(f.pixels().pixels(), &vec![BLACK; 4]);
    assert_eq!(f.depth_at(0, 1), Some(FARTHEST));
    f.plot_sample(Sample { x: 0, y: 1, depth: -100, color: GREEN });
    assert_eq!(f.pixels().get(0, 1), Some(GREEN));
}

#[test]
fn painting_on_a_frame_ignores_depth() {
    let mut f = DepthFrame::new(4, 4).unwrap();
    f.plot_sample(Sample { x: 0, y: 0, depth: 100, color: RED });
    let t = Triangle2d { x0: 0, y0: 0, x1: 3, y1: 0, x2: 0, y2: 3, color: BLUE };
    f.draw_fills(&vec![t]);
    assert_eq!(f.pixels().get(0, 0), Some(BLUE));
    assert_eq!(f.depth_at(0, 0), Some(100));
    assert_eq!(f.depth_at(1, 1), Some(FARTHEST));
    f.draw_outlines(&vec![Triangle2d { color: GREEN, ..t }]);
    assert_eq!(f.pixels().get(0, 0), Some(GREEN));
    assert_eq!(f.pixels().get(1, 1), Some(BLUE));
    assert_eq!(f.depth_at(0, 0), Some(100));
}

#[test]
fn frame_runs_through_its_stages_in_turn() {
    let mut c = Compositor::new(6, 6).unwrap();
    assert_eq!(c.stage(), Stage::Idle);
    assert_eq!(c.width(), 6);
    assert_eq!(c.height(), 6);
    assert!(c.present().is_none());

    assert!(c.clear());
    assert_eq!(c.stage(), Stage::Cleared);
    assert!(c.present().is_none());

    let t = Triangle2d { x0: 0, y0: 0, x1: 4, y1: 0, x2: 0, y2: 4, color: RED };
    assert!(c.populate_fills(&vec![t]));
    assert_eq!(c.stage(), Stage::Populated);
    assert!(c.present().is_none());

    assert!(c.finish());
    assert_eq!(c.stage(), Stage::Ready);
    let shown = c.present().unwrap().clone();
    assert_eq!(shown.len(), 36);
    assert_eq!(shown.iter().filter(|&&p| p == RED).count(), 15);
    assert_eq!(shown[0], RED);
    assert_eq!(shown[35], BLACK);

    assert!(c.recycle());
    assert_eq!(c.stage(), Stage::Idle);
    assert!(c.present().is_none());

    assert!(c.clear());
    assert!(c.populate_outlines(&Vec::new()));
    assert!(c.finish());
    assert_eq!(c.present().unwrap(), &vec![BLACK; 36]);
}

#[test]
fn steps_out_of_turn_are_refused() {
    let t = Triangle2d { x0: 0, y0: 0, x1: 2, y1: 0, x2: 0, y2: 2, color: RED };
    let mut c = Compositor::new(3, 3).unwrap();
    assert!(!c.populate_fills(&vec![t]));
    assert!(!c.populate_outlines(&vec![t]));
    assert!(!c.populate_samples(&vec![Sample { x: 0, y: 0, depth: 1, color: RED }]));
    assert!(!c.finish());
    assert!(!c.recycle());
    assert_eq!(c.stage(), Stage::Idle);

    assert!(c.clear());
    assert!(!c.clear());
    assert!(!c.finish());
    assert!(!c.recycle());
    assert_eq!(c.stage(), Stage::Cleared);

    assert!(c.populate_outlines(&vec![t]));
    assert!(!c.populate_outlines(&vec![t]));
    assert!(!c.populate_fills(&vec![Triangle2d { color: GREEN, ..t }]));
    assert!(!c.clear());
    assert!(!c.recycle());
    assert_eq!(c.stage(), Stage::Populated);

    assert!(c.finish());
    assert!(!c.finish());
    assert!(!c.clear());
    assert!(!c.populate_samples(&Vec::new()));
    assert_eq!(c.stage(), Stage::Ready);
    let shown = c.present().unwrap();
    assert_eq!(shown.iter().filter(|&&p| p == RED).count(), 6);
    assert_eq!(shown.iter().filter(|&&p| p == GREEN).count(), 0);
}

#[test]
fn sampled_frame_resolves_depth() {
    let mut c = Compositor::new(4, 4).unwrap();
    assert!(c.clear());
    assert!(c.populate_samples(&vec![
        sample(1, 1, 0.5, BLUE),
        sample(1, 1, 0.9, GREEN),
        sample(1, 1, 0.2, RED),
        sample(2, 3, 0.1, RED),
        sample(9, 9, 0.9, RED),
    ]));
    assert!(c.finish());
    let shown = c.present().unwrap();
    let mut expected = vec![BLACK; 16];
    expected[1 * 4 + 1] = GREEN;
    expected[3 * 4 + 2] = RED;
    assert_eq!(shown, &expected);
}

#[test]
fn next_frame_starts_from_background() {
    let mut c = Compositor::new(4, 4).unwrap();
    assert!(c.clear());
    assert!(c.populate_samples(&vec![Sample { x: 1, y: 1, depth: 1000, color: GREEN }]));
    assert!(c.finish());
    assert!(c.recycle());
    assert!(c.clear());
    assert!(c.populate_samples(&vec![Sample { x: 1, y: 1, depth: -1000, color: RED }]));
    assert!(c.finish());
    assert_eq!(c.present().unwrap()[5], RED);
    assert_eq!(c.present().unwrap().iter().filter(|&&p| p != BLACK).count(), 1);
}

#[test]
fn compositor_too_large_is_refused() {
    assert!(Compositor::new(usize::MAX, 2).is_none());
}
