use freelook::camera::Camera;
use freelook::fx::SCALE;
use freelook::trig::HALF_PI_FX;
use freelook::vec3::V3;

fn to_f(v: i64) -> f64 {
    v as f64 / SCALE as f64
}

fn vec_f(v: &V3) -> [f64; 3] {
    [to_f(v.x), to_f(v.y), to_f(v.z)]
}

fn norm(v: &V3) -> f64 {
    let a = vec_f(v);
    (a[0] * a[0] + a[1] * a[1] + a[2] * a[2]).sqrt()
}

fn dot(a: &V3, b: &V3) -> f64 {
    let x = vec_f(a);
    let y = vec_f(b);
    x[0] * y[0] + x[1] * y[1] + x[2] * y[2]
}

fn cross_f(a: &V3, b: &V3) -> [f64; 3] {
    let x = vec_f(a);
    let y = vec_f(b);
    [
        x[1] * y[2] - x[2] * y[1],
        x[2] * y[0] - x[0] * y[2],
        x[0] * y[1] - x[1] * y[0],
    ]
}

fn fx_angle(radians: f64) -> i64 {
    (radians * SCALE as f64).round() as i64
}

fn assert_close(actual: f64, expected: f64, tol: f64, what: &str) {
    assert!(
        (actual - expected).abs() <= tol,
        "{}: {} not within {} of {}",
        what,
        actual,
        tol,
        expected
    );
}

#[test]
fn default_basis_is_canonical() {
    let cam = Camera::default();
    assert_eq!(cam.position(), V3 { x: 0, y: 0, z: 0 });
    assert_eq!(cam.forward(), V3 { x: 0, y: 0, z: -SCALE });
    assert_eq!(cam.up(), V3 { x: 0, y: SCALE, z: 0 });
    assert_eq!(cam.right(), V3 { x: SCALE, y: 0, z: 0 });
}

#[test]
fn translate_one_unit_forward_axis() {
    let mut cam = Camera::default();
    cam.translate(V3 { x: 0, y: 0, z: SCALE });
    assert_eq!(cam.position(), V3 { x: 0, y: 0, z: SCALE });
    assert_eq!(cam.forward(), V3 { x: 0, y: 0, z: -SCALE });
}

#[test]
fn translate_composes_exactly() {
    let v1 = V3 { x: 123456, y: -789, z: 42 };
    let v2 = V3 { x: -3000, y: 654321, z: -99999 };
    let mut step = Camera::default();
    step.translate(v1);
    step.translate(v2);
    let mut once = Camera::default();
    once.translate(V3 { x: v1.x + v2.x, y: v1.y + v2.y, z: v1.z + v2.z });
    assert_eq!(step.position(), once.position());
}

#[test]
fn translate_zero_is_identity() {
    let mut cam = Camera::default();
    cam.translate(V3 { x: 777, y: -5, z: 31 });
    let before = cam.position();
    cam.translate(V3 { x: 0, y: 0, z: 0 });
    assert_eq!(cam.position(), before);
}

#[test]
fn rotate_zero_is_identity() {
    let mut cam = Camera::default();
    cam.rotate_by(fx_angle(0.37), fx_angle(-0.21));
    let (f, u, r) = (cam.forward(), cam.up(), cam.right());
    cam.rotate_by(0, 0);
    assert_eq!(cam.forward(), f);
    assert_eq!(cam.up(), u);
    assert_eq!(cam.right(), r);
}

#[test]
fn quarter_turn_yaw_faces_negative_x() {
    let mut cam = Camera::default();
    cam.rotate_by(HALF_PI_FX, 0);
    let f = vec_f(&cam.forward());
    assert_close(f[0], -1.0, 1e-4, "forward.x");
    assert_close(f[1], 0.0, 1e-4, "forward.y");
    assert_close(f[2], 0.0, 1e-4, "forward.z");
    let r = vec_f(&cam.right());
    assert_close(r[0], 0.0, 1e-4, "right.x");
    assert_close(r[1], 0.0, 1e-4, "right.y");
    assert_close(r[2], -1.0, 1e-4, "right.z");
    let u = vec_f(&cam.up());
    assert_close(u[0], 0.0, 1e-4, "up.x");
    assert_close(u[1], 1.0, 1e-4, "up.y");
    assert_close(u[2], 0.0, 1e-4, "up.z");
}

#[test]
fn yaw_keeps_horizon_level() {
    for yaw in [0.3, 1.0, 2.5, -0.7, 3.9, -2.2] {
        let mut cam = Camera::default();
        cam.rotate_by(fx_angle(yaw), 0);
        assert_eq!(
            cam.up(),
            V3 { x: 0, y: SCALE, z: 0 },
            "up drifted off world-up after yaw {}",
            yaw
        );
    }
}

#[test]
fn pitch_up_raises_forward() {
    let mut cam = Camera::default();
    cam.rotate_by(0, fx_angle(0.5));
    let f = vec_f(&cam.forward());
    assert!(f[1] > 0.4, "positive pitch should look up, got {:?}", f);
    assert!(f[2] < -0.8, "forward should keep facing -Z, got {:?}", f);
    let u = vec_f(&cam.up());
    assert!(u[1] > 0.8, "up should stay mostly vertical, got {:?}", u);
}

#[test]
fn basis_stays_unit_length_under_rotation() {
    let mut cam = Camera::default();
    let steps = [
        (0.31, 0.12),
        (-0.44, 0.05),
        (1.7, -0.3),
        (0.02, 0.6),
        (-2.8, -0.41),
        (0.9, 0.33),
        (5.1, -0.27),
        (-0.66, 0.18),
    ];
    for &(yaw, pitch) in steps.iter() {
        cam.rotate_by(fx_angle(yaw), fx_angle(pitch));
        for (v, name) in [(cam.forward(), "forward"), (cam.up(), "up"), (cam.right(), "right")] {
            assert_close(norm(&v), 1.0, 1e-5, name);
        }
    }
}

#[test]
fn basis_stays_orthogonal_under_rotation() {
    let mut cam = Camera::default();
    let steps = [
        (0.21, -0.17),
        (0.93, 0.08),
        (-1.2, 0.35),
        (2.4, -0.5),
        (-0.07, 0.44),
        (1.15, -0.02),
    ];
    for &(yaw, pitch) in steps.iter() {
        cam.rotate_by(fx_angle(yaw), fx_angle(pitch));
        let (f, u, r) = (cam.forward(), cam.up(), cam.right());
        assert_close(dot(&f, &u), 0.0, 1e-4, "forward.up");
        assert_close(dot(&f, &r), 0.0, 1e-4, "forward.right");
        assert_close(dot(&u, &r), 0.0, 1e-4, "up.right");
    }
}

#[test]
fn basis_stays_right_handed_under_rotation() {
    let mut cam = Camera::default();
    let steps = [(0.5, 0.2), (-1.3, -0.25), (2.1, 0.4), (-0.09, -0.55), (0.77, 0.1)];
    for &(yaw, pitch) in steps.iter() {
        cam.rotate_by(fx_angle(yaw), fx_angle(pitch));
        let fxu = cross_f(&cam.forward(), &cam.up());
        let r = vec_f(&cam.right());
        assert_close(fxu[0], r[0], 1e-4, "(forward x up).x vs right.x");
        assert_close(fxu[1], r[1], 1e-4, "(forward x up).y vs right.y");
        assert_close(fxu[2], r[2], 1e-4, "(forward x up).z vs right.z");
    }
}

#[test]
fn steep_pitch_keeps_unit_basis() {
    // Deep pitch, short of vertical: the basis must stay orthonormal right
    // up to the singularity's immediate neighbourhood.
    for pitch in [1.0, 1.2, 1.4, 1.48, -1.3, -1.5] {
        let mut cam = Camera::default();
        cam.rotate_by(0, fx_angle(pitch));
        for (v, name) in [(cam.forward(), "forward"), (cam.up(), "up"), (cam.right(), "right")] {
            assert_close(norm(&v), 1.0, 1e-5, name);
        }
        let (f, u, r) = (cam.forward(), cam.up(), cam.right());
        assert_close(dot(&f, &u), 0.0, 1e-4, "forward.up");
        assert_close(dot(&f, &r), 0.0, 1e-4, "forward.right");
        assert_close(dot(&u, &r), 0.0, 1e-4, "up.right");
    }
}

#[test]
fn steep_constructor_forward_keeps_unit_basis() {
    // A forward only 16 degrees off vertical still yields a unit basis.
    let fy = (0.96 * SCALE as f64).round() as i64;
    let fz = (0.28 * SCALE as f64).round() as i64;
    let cam = Camera::_new(
        V3 { x: 0, y: 0, z: 0 },
        V3 { x: 0, y: fy, z: fz },
        V3 { x: 0, y: SCALE, z: 0 },
    );
    for (v, name) in [(cam.forward(), "forward"), (cam.up(), "up"), (cam.right(), "right")] {
        assert_close(norm(&v), 1.0, 1e-5, name);
    }
    let (f, u, r) = (cam.forward(), cam.up(), cam.right());
    assert_close(dot(&f, &u), 0.0, 1e-4, "forward.up");
    assert_close(dot(&f, &r), 0.0, 1e-4, "forward.right");
    assert_close(dot(&u, &r), 0.0, 1e-4, "up.right");
    // and it can pitch back down: right is a real axis, not zero
    let mut cam = cam;
    cam.rotate_by(0, fx_angle(-0.8));
    let f = vec_f(&cam.forward());
    assert!(f[1] < 0.8, "pitching down should lower forward, got {:?}", f);
}

#[test]
fn vertical_forward_degenerates_right() {
    // Looking straight up makes forward parallel to world-up; the cross
    // product falls under the degeneracy threshold (1/64 unit) and the
    // basis collapses, the documented limit at the exact singularity.
    let mut cam = Camera::default();
    cam.rotate_by(0, HALF_PI_FX);
    let f = vec_f(&cam.forward());
    assert!(f[1] > 0.99, "forward should be nearly vertical, got {:?}", f);
    assert_eq!(cam.right(), V3 { x: 0, y: 0, z: 0 });
    assert_eq!(cam.up(), V3 { x: 0, y: 0, z: 0 });
}

#[test]
fn constructor_normalizes_forward() {
    let cam = Camera::_new(
        V3 { x: 55, y: -9, z: 4 },
        V3 { x: 0, y: 0, z: -3 * SCALE },
        V3 { x: 12345, y: 77, z: -3 },
    );
    assert_eq!(cam.position(), V3 { x: 55, y: -9, z: 4 });
    assert_eq!(cam.forward(), V3 { x: 0, y: 0, z: -SCALE });
    assert_eq!(cam.right(), V3 { x: SCALE, y: 0, z: 0 });
    assert_eq!(cam.up(), V3 { x: 0, y: SCALE, z: 0 });
}
