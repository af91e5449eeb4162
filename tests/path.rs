use pathtracer::path::{next_step, start_path, Bounce, PathStep};

fn run(max_depth: u32, bounces: &[Bounce]) -> (PathStep, usize) {
    let mut step = start_path(max_depth);
    let mut tests = 0;
    while let PathStep::Trace { remaining } = step {
        step = next_step(remaining, bounces[tests]);
        tests += 1;
    }
    (step, tests)
}

#[test]
fn zero_depth_is_black_without_tracing() {
    assert_eq!(start_path(0), PathStep::Black);
}

#[test]
fn first_step_traces_with_full_depth() {
    assert_eq!(start_path(50), PathStep::Trace { remaining: 50 });
}

#[test]
fn miss_shows_sky() {
    assert_eq!(next_step(3, Bounce::Missed), PathStep::Sky);
    assert_eq!(next_step(1, Bounce::Missed), PathStep::Sky);
}

#[test]
fn absorption_is_black() {
    assert_eq!(next_step(5, Bounce::Absorbed), PathStep::Black);
}

#[test]
fn scatter_uses_one_bounce() {
    assert_eq!(next_step(5, Bounce::Scattered), PathStep::Trace { remaining: 4 });
    assert_eq!(next_step(1, Bounce::Scattered), PathStep::Black);
}

#[test]
fn endless_scattering_stops_at_depth() {
    let bounces = vec![Bounce::Scattered; 10];
    assert_eq!(run(10, &bounces), (PathStep::Black, 10));
    assert_eq!(run(1, &bounces), (PathStep::Black, 1));
}

#[test]
fn path_escapes_after_two_bounces() {
    let bounces = [Bounce::Scattered, Bounce::Scattered, Bounce::Missed];
    assert_eq!(run(50, &bounces), (PathStep::Sky, 3));
}
