use freelook::camera::Camera;
use freelook::fx::{div_euclid_pos, fxmul, isqrt, SCALE};
use freelook::trig::{sin_cos, HALF_PI_FX, PI_FX, TWO_PI_FX};
use freelook::uniform::{camera_consts, vec3_to_vec4_pad_zeros};
use freelook::vec3::V3;

fn to_f(v: i64) -> f64 {
    v as f64 / SCALE as f64
}

fn assert_close(actual: f64, expected: f64, tol: f64, what: &str) {
    assert!(
        (actual - expected).abs() <= tol,
        "{}: {} not within {} of {}",
        what,
        actual,
        tol,
        expected
    );
}

#[test]
fn euclidean_division_rounds_down() {
    assert_eq!(div_euclid_pos(7, 2), 3);
    assert_eq!(div_euclid_pos(-7, 2), -4);
    assert_eq!(div_euclid_pos(-8, 2), -4);
    assert_eq!(div_euclid_pos(0, 5), 0);
    assert_eq!(div_euclid_pos(-1, SCALE), -1);
}

#[test]
fn fixed_point_product_of_units() {
    assert_eq!(fxmul(SCALE, SCALE), SCALE);
    assert_eq!(fxmul(SCALE, -SCALE), -SCALE);
    assert_eq!(fxmul(0, SCALE), 0);
    assert_eq!(fxmul(SCALE / 2, SCALE / 2), SCALE / 4);
}

#[test]
fn integer_square_roots() {
    assert_eq!(isqrt(0), 0);
    assert_eq!(isqrt(1), 1);
    assert_eq!(isqrt(3), 1);
    assert_eq!(isqrt(4), 2);
    assert_eq!(isqrt(143), 11);
    assert_eq!(isqrt(144), 12);
    let s = SCALE as u64;
    assert_eq!(isqrt(s * s), s);
    assert_eq!(isqrt(s * s - 1), s - 1);
}

#[test]
fn sine_cosine_at_cardinal_angles() {
    assert_eq!(sin_cos(0), (0, SCALE));
    let (s, c) = sin_cos(HALF_PI_FX);
    assert_close(to_f(s), 1.0, 1e-4, "sin(pi/2)");
    assert_close(to_f(c), 0.0, 1e-4, "cos(pi/2)");
    let (s, c) = sin_cos(PI_FX);
    assert_close(to_f(s), 0.0, 1e-4, "sin(pi)");
    assert_close(to_f(c), -1.0, 1e-4, "cos(pi)");
    let (s, c) = sin_cos(-HALF_PI_FX);
    assert_close(to_f(s), -1.0, 1e-4, "sin(-pi/2)");
    assert_close(to_f(c), 0.0, 1e-4, "cos(-pi/2)");
}

#[test]
fn sine_cosine_match_reference_values() {
    for a in [0.1, 0.5, 1.0, 1.5, 2.0, 3.0, -0.4, -2.6] {
        let t = (a * SCALE as f64).round() as i64;
        let (s, c) = sin_cos(t);
        assert_close(to_f(s), a.sin(), 2e-4, "sin");
        assert_close(to_f(c), a.cos(), 2e-4, "cos");
        let sum = to_f(s) * to_f(s) + to_f(c) * to_f(c);
        assert_close(sum, 1.0, 1e-5, "sin^2 + cos^2");
    }
}

#[test]
fn angle_reduction_wraps_turns() {
    let (s0, c0) = sin_cos(fx(0.8));
    let (s1, c1) = sin_cos(fx(0.8) + TWO_PI_FX);
    assert_close(to_f(s1), to_f(s0), 1e-5, "sin after one turn");
    assert_close(to_f(c1), to_f(c0), 1e-5, "cos after one turn");
}

fn fx(radians: f64) -> i64 {
    (radians * SCALE as f64).round() as i64
}

#[test]
fn pad_marks_directions_with_zero_w() {
    let p = vec3_to_vec4_pad_zeros(&V3 { x: 5, y: -6, z: 7 });
    assert_eq!(p.x, 5);
    assert_eq!(p.y, -6);
    assert_eq!(p.z, 7);
    assert_eq!(p.w, 0);
}

#[test]
fn uniform_record_snapshots_camera() {
    let mut cam = Camera::default();
    cam.translate(V3 { x: 11, y: 22, z: 33 });
    cam.rotate_by(fx(0.9), fx(-0.2));
    let rec = camera_consts(&cam);
    let (p, f, r, u) = (cam.position(), cam.forward(), cam.right(), cam.up());
    assert_eq!((rec.camera_pos.x, rec.camera_pos.y, rec.camera_pos.z), (p.x, p.y, p.z));
    assert_eq!(
        (rec.camera_forward.x, rec.camera_forward.y, rec.camera_forward.z),
        (f.x, f.y, f.z)
    );
    assert_eq!((rec.camera_right.x, rec.camera_right.y, rec.camera_right.z), (r.x, r.y, r.z));
    assert_eq!((rec.camera_up.x, rec.camera_up.y, rec.camera_up.z), (u.x, u.y, u.z));
    assert_eq!(rec.camera_pos.w, 0);
    assert_eq!(rec.camera_forward.w, 0);
    assert_eq!(rec.camera_right.w, 0);
    assert_eq!(rec.camera_up.w, 0);
}
