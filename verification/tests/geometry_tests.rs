use gcodeplot::arc::resolve_arc;
use gcodeplot::fixed::Fixed;
use gcodeplot::gcode::{current_point, CommentlessGCodeExpr};

fn fx(raw: i64) -> Fixed {
    Fixed::from_raw(raw)
}

fn units(p: (Fixed, Fixed)) -> (f64, f64) {
    (p.0.raw as f64 / 1000.0, p.1.raw as f64 / 1000.0)
}

// 1e-5 square units in raw thousandths squared
const TOL: u64 = 10;

#[test]
fn half_circle_endpoints_and_midpoint() {
    // a clockwise half-circle around (0, 5): from the start it sweeps
    // through (-5, 5), the 9 o'clock point of the circle
    let r = resolve_arc((fx(0), fx(0)), true, (fx(0), fx(10_000)), (fx(0), fx(5_000)), TOL);
    assert!(!r.center_mismatch);
    assert_eq!(r.points.len(), 19);
    assert_eq!((r.points[0].0.raw, r.points[0].1.raw), (0, 0));
    let (lx, ly) = units(r.points[18]);
    assert!((lx - 0.0).abs() < 0.01 && (ly - 10.0).abs() < 0.01, "end {lx} {ly}");
    let (mx, my) = units(r.points[9]);
    assert!((mx + 5.0).abs() < 0.01 && (my - 5.0).abs() < 0.01, "mid {mx} {my}");
}

#[test]
fn counterclockwise_half_circle_mirrors() {
    let r = resolve_arc((fx(0), fx(0)), false, (fx(0), fx(10_000)), (fx(0), fx(5_000)), TOL);
    let (mx, my) = units(r.points[9]);
    assert!((mx - 5.0).abs() < 0.01 && (my - 5.0).abs() < 0.01, "mid {mx} {my}");
}

#[test]
fn arc_stays_on_its_circle() {
    let r = resolve_arc((fx(0), fx(0)), true, (fx(0), fx(10_000)), (fx(0), fx(5_000)), TOL);
    for p in &r.points {
        let (x, y) = units(*p);
        let radius = (x * x + (y - 5.0) * (y - 5.0)).sqrt();
        assert!((radius - 5.0).abs() < 0.01, "radius {radius} at ({x}, {y})");
    }
}

#[test]
fn full_circle_emits_closed_loop() {
    let r = resolve_arc((fx(2_000), fx(1_000)), false, (fx(2_000), fx(1_000)), (fx(0), fx(5_000)), TOL);
    // steps + 1 points for radius 5: clamp(floor(3.6 * 5), 18, 1800) == 18
    assert_eq!(r.points.len(), 19);
    assert_eq!(r.points[0], r.points[18]);
    // the loop traces the whole circle: the antipodal point is reached
    let (mx, my) = units(r.points[9]);
    assert!((mx - 2.0).abs() < 0.01 && (my - 11.0).abs() < 0.01, "mid {mx} {my}");
}

#[test]
fn step_count_grows_with_radius() {
    // radius 100: floor(3.6 * 100) == 360 steps, 361 points
    let r = resolve_arc(
        (fx(0), fx(0)),
        true,
        (fx(0), fx(200_000)),
        (fx(0), fx(100_000)),
        TOL,
    );
    assert_eq!(r.points.len(), 361);
    // a tiny radius still gets the floor of 18 steps
    let r = resolve_arc((fx(0), fx(0)), true, (fx(0), fx(200)), (fx(0), fx(100)), TOL);
    assert_eq!(r.points.len(), 19);
}

#[test]
fn quarter_circle_turning_sign_matches_direction() {
    // from (5, 0) around the origin to (0, 5)
    let ccw = resolve_arc(
        (fx(5_000), fx(0)),
        false,
        (fx(0), fx(5_000)),
        (fx(-5_000), fx(0)),
        TOL,
    );
    let cw = resolve_arc(
        (fx(5_000), fx(0)),
        true,
        (fx(0), fx(5_000)),
        (fx(-5_000), fx(0)),
        TOL,
    );
    for (r, positive) in [(&ccw, true), (&cw, false)] {
        let mut turning = 0.0f64;
        for k in 0..r.points.len() - 2 {
            let (ax, ay) = units(r.points[k]);
            let (bx, by) = units(r.points[k + 1]);
            let (cx, cy) = units(r.points[k + 2]);
            turning += (bx - ax) * (cy - by) - (by - ay) * (cx - bx);
        }
        assert!(
            (turning > 0.0) == positive,
            "turning {turning} for positive={positive}"
        );
    }
    // the short ccw quarter ends at the declared end; the cw branch takes
    // the long way round and still ends there
    let (ex, ey) = units(ccw.points[ccw.points.len() - 1]);
    assert!((ex - 0.0).abs() < 0.01 && (ey - 5.0).abs() < 0.01);
    let (ex, ey) = units(cw.points[cw.points.len() - 1]);
    assert!((ex - 0.0).abs() < 0.02 && (ey - 5.0).abs() < 0.02);
}

#[test]
fn inconsistent_center_is_flagged_but_resolved() {
    // the declared center (0, 5) is not equidistant from (0, 0) and (7, 13)
    let r = resolve_arc((fx(0), fx(0)), true, (fx(7_000), fx(13_000)), (fx(0), fx(5_000)), TOL);
    assert!(r.center_mismatch);
    assert_eq!(r.points.len(), 19);
    assert_eq!((r.points[0].0.raw, r.points[0].1.raw), (0, 0));
}

#[test]
fn consistent_center_is_not_flagged() {
    let r = resolve_arc((fx(0), fx(0)), true, (fx(0), fx(10_000)), (fx(0), fx(5_000)), TOL);
    assert!(!r.center_mismatch);
}

#[test]
fn current_point_replays_in_order() {
    let cmds: Vec<(usize, CommentlessGCodeExpr)> = vec![];
    assert_eq!(current_point(&cmds), (fx(0), fx(0)));
    let cmds = vec![
        (0, CommentlessGCodeExpr::Move { x: fx(3_000), y: fx(4_000) }),
        (1, CommentlessGCodeExpr::Pen(true)),
        (
            2,
            CommentlessGCodeExpr::Arc {
                clkw: false,
                x: fx(6_000),
                y: fx(1_000),
                i: fx(500),
                j: fx(0),
            },
        ),
    ];
    assert_eq!(current_point(&cmds), (fx(6_000), fx(1_000)));
    let cmds = vec![
        (0, CommentlessGCodeExpr::Move { x: fx(3_000), y: fx(4_000) }),
        (0, CommentlessGCodeExpr::Home),
    ];
    assert_eq!(current_point(&cmds), (fx(0), fx(0)));
}

#[test]
fn scale_by_truncates_toward_zero() {
    assert_eq!(fx(1).scale_by(fx(500)).raw, 0);
    assert_eq!(fx(-1).scale_by(fx(500)).raw, 0);
    assert_eq!(fx(3_000).scale_by(fx(2_500)).raw, 7_500);
    assert_eq!(fx(-3_000).scale_by(fx(2_500)).raw, -7_500);
    assert_eq!(Fixed::from_units(7).raw, 7_000);
}
