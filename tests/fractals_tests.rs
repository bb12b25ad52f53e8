use rust_fractals::fractals::Escape;

/// Drives the count with the float side of `z ← z² + c`.
fn julia(c: [f64; 2], z: [f64; 2], escape_radius: f64, max_iterations: u8) -> u8 {
    let mut e = Escape::start(max_iterations);
    let (mut zx, mut zy) = (z[0], z[1]);
    while e.step(zx * zx + zy * zy < escape_radius * escape_radius) {
        let xtemp = zx * zx - zy * zy;
        zy = 2.0 * zx * zy + c[1];
        zx = xtemp + c[0];
    }
    e.count()
}

#[test]
fn origin_never_escapes() {
    assert_eq!(julia([0.0, 0.0], [0.0, 0.0], 2.0, 10), 10);
}

#[test]
fn point_outside_radius_counts_one() {
    assert_eq!(julia([0.0, 0.0], [2.0, 0.0], 2.0, 10), 1);
    assert_eq!(julia([0.0, 0.0], [-2.0, -2.0], 2.0, 10), 1);
}

#[test]
fn count_stays_in_range() {
    for i in 0..50 {
        let z = [i as f64 * 0.05 - 1.25, 0.3];
        let n = julia([-0.7, 0.27015], z, 10.0, 255);
        assert!((1..=255).contains(&n));
        assert_eq!(n, julia([-0.7, 0.27015], z, 10.0, 255));
    }
}

#[test]
fn nan_input_stops_at_once() {
    assert_eq!(julia([0.0, 0.0], [f64::NAN, 0.0], 2.0, 10), 1);
}

#[test]
fn step_counts() {
    let mut e = Escape::start(3);
    assert_eq!(e.count(), 1);
    assert!(!e.is_done());
    assert!(e.step(true));
    assert_eq!(e.count(), 2);
    assert!(e.step(true));
    assert_eq!(e.count(), 3);
    assert!(e.is_done());
    assert!(!e.step(true));
    assert_eq!(e.count(), 3);
}

#[test]
fn cap_of_one_never_steps() {
    let mut e = Escape::start(1);
    assert!(e.is_done());
    assert!(!e.step(true));
    assert_eq!(e.count(), 1);
}

#[test]
fn outside_stops_counting() {
    let mut e = Escape::start(10);
    assert!(e.step(true));
    assert!(!e.step(false));
    assert_eq!(e.count(), 2);
    assert!(e.is_done());
    assert!(!e.step(true));
    assert_eq!(e.count(), 2);
}
