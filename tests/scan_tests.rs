use satpass::bdeck::TrackSample;
use satpass::pipeline::{meets_intensity, refinement_window};
use satpass::scan::{
    scan_step_us, starts_inside_pass, Bisection, ScanAction, ScanEvent, ScanPhase, Window, WindowScanner,
    COARSE_STEP_US, FINE_STEP_US,
};

const DEG: i64 = 1_000_000;

#[test]
fn step_size_follows_band() {
    assert_eq!(scan_step_us(-20 * DEG, 0), COARSE_STEP_US);
    assert_eq!(scan_step_us(-5 * DEG, 0), FINE_STEP_US);
    assert_eq!(scan_step_us(4 * DEG, 0), FINE_STEP_US);
    assert_eq!(scan_step_us(6 * DEG, 0), COARSE_STEP_US);
}

#[test]
fn scanner_emits_complete_window() {
    let (mut s, a) = WindowScanner::new(0, 100_000_000, 0);
    assert_eq!(a, ScanAction::Observe { at_us: 0 });
    let a = s.step(ScanEvent::Observed { elevation: -30 * DEG, rate_sign: 1 });
    assert_eq!(a, ScanAction::Observe { at_us: 10_000_000 });
    let a = s.step(ScanEvent::Observed { elevation: -2 * DEG, rate_sign: 1 });
    assert_eq!(a, ScanAction::Observe { at_us: 11_000_000 });
    let a = s.step(ScanEvent::Observed { elevation: DEG, rate_sign: 1 });
    assert_eq!(a, ScanAction::RefineRise { from_us: 10_000_000 });
    let a = s.step(ScanEvent::Refined { at_us: 10_500_000 });
    assert_eq!(a, ScanAction::Observe { at_us: 11_000_000 });
    assert_eq!(s.phase, ScanPhase::SeekingSet { rise_us: 10_500_000 });
    assert!(s.windows.is_empty());
    let a = s.step(ScanEvent::Observed { elevation: -DEG, rate_sign: -1 });
    assert_eq!(a, ScanAction::RefineSet { from_us: 10_000_000 });
    assert!(s.windows.is_empty());
    let a = s.step(ScanEvent::Refined { at_us: 10_900_000 });
    assert_eq!(a, ScanAction::Observe { at_us: 11_000_000 });
    assert_eq!(s.windows, vec![Window { rise_us: 10_500_000, set_us: 10_900_000 }]);
}

#[test]
fn scanner_drops_window_cut_by_horizon() {
    let (mut s, _) = WindowScanner::new(0, 5_000_000, 0);
    s.step(ScanEvent::Observed { elevation: DEG, rate_sign: 1 });
    s.step(ScanEvent::Refined { at_us: 0 });
    let a = s.step(ScanEvent::Observed { elevation: 10 * DEG, rate_sign: 1 });
    assert_eq!(a, ScanAction::Stop);
    assert_eq!(s.phase, ScanPhase::Finished);
    assert!(s.windows.is_empty());
}

#[test]
fn scanner_ignores_event_of_wrong_kind() {
    let (mut s, _) = WindowScanner::new(0, 100_000_000, 0);
    let a = s.step(ScanEvent::Refined { at_us: 5 });
    assert_eq!(a, ScanAction::Observe { at_us: 0 });
    assert_eq!(s.phase, ScanPhase::SeekingRise);
}

#[test]
fn empty_scan_span_stops_at_once() {
    let (s, a) = WindowScanner::new(5, 5, 0);
    assert_eq!(a, ScanAction::Stop);
    assert_eq!(s.phase, ScanPhase::Finished);
}

fn rate_sign(t: i64, root: i64) -> i8 {
    if t < root {
        1
    } else if t > root {
        -1
    } else {
        0
    }
}

#[test]
fn bisection_converges_to_root() {
    let root = 123_456_789;
    let mut b = Bisection::new(0, 600_000_000, rate_sign(0, root), rate_sign(600_000_000, root));
    while !b.is_done() {
        let s = rate_sign(b.candidate_us, root);
        b.step(s);
    }
    assert!((b.candidate_us - root).abs() <= 1);
    assert!(b.iteration < 10000);
}

#[test]
fn bisection_settles_without_sign_change() {
    let mut b = Bisection::new(0, 1000, 1, 1);
    assert_eq!(b.candidate_us, 500);
    b.step(1);
    assert!(b.settled);
    assert!(b.is_done());
    assert_eq!(b.candidate_us, 500);
}

#[test]
fn bisection_exact_root_at_candidate() {
    let mut b = Bisection::new(0, 1000, 1, -1);
    b.step(0);
    assert!(b.is_done());
    assert_eq!(b.candidate_us, 500);
}

#[test]
fn intensity_threshold() {
    let s = TrackSample { latitude: 0, longitude: 0, intensity: 199, scale: 2 };
    assert!(!meets_intensity(&s, 100));
    let s = TrackSample { latitude: 0, longitude: 0, intensity: 200, scale: 2 };
    assert!(meets_intensity(&s, 100));
}

#[test]
fn refinement_window_is_an_hour() {
    assert_eq!(refinement_window(10_000_000_000), (8_200_000_000, 11_800_000_000));
}

#[test]
fn start_inside_pass_when_at_or_above_threshold() {
    assert!(starts_inside_pass(3 * DEG, 0));
    assert!(starts_inside_pass(0, 0));
    assert!(!starts_inside_pass(-3 * DEG, 0));
    assert!(!starts_inside_pass(-6 * DEG, 5 * DEG));
}
