use ray_tracing::{Scalar, Vec3};

fn v(x: f64, y: f64, z: f64) -> Vec3 {
    Vec3(
        Scalar::from_bits(x.to_bits()),
        Scalar::from_bits(y.to_bits()),
        Scalar::from_bits(z.to_bits()),
    )
}

fn floats(v: Vec3) -> (f64, f64, f64) {
    (
        f64::from_bits(v.0.to_bits()),
        f64::from_bits(v.1.to_bits()),
        f64::from_bits(v.2.to_bits()),
    )
}

fn norm(v: Vec3) -> f64 {
    let (x, y, z) = floats(v);
    (x.powi(2) + y.powi(2) + z.powi(2)).sqrt()
}

fn sum(a: Vec3, b: Vec3) -> Vec3 {
    let (ax, ay, az) = floats(a);
    let (bx, by, bz) = floats(b);
    v(ax + bx, ay + by, az + bz)
}

/// Gamma correction and scaling to the byte range, as the renderer applies
/// them before a colour is clamped.
fn gamma_scaled(r: f64, g: f64, b: f64) -> Vec3 {
    v(r.sqrt() * 255.999, g.sqrt() * 255.999, b.sqrt() * 255.999)
}

#[test]
fn test_neg() {
    let v = Vec3::ones();
    let vn = -v;
    assert!(norm(sum(v, vn)) < 1e-9);
}

#[test]
fn neg_is_componentwise_and_exact() {
    let n = -v(1.5, -2.0, 0.0);
    assert_eq!(floats(n), (-1.5, 2.0, -0.0));
    assert_eq!(n.2.to_bits(), (-0.0f64).to_bits());
}

#[test]
fn named_vectors() {
    assert_eq!(floats(Vec3::ones()), (1.0, 1.0, 1.0));
    assert_eq!(floats(Vec3::zeros()), (0.0, 0.0, 0.0));
    assert_eq!(floats(Vec3::x()), (1.0, 0.0, 0.0));
    assert_eq!(floats(Vec3::y()), (0.0, 1.0, 0.0));
    assert_eq!(floats(Vec3::z()), (0.0, 0.0, 1.0));
}

#[test]
fn white_black_and_overshoot_as_pixels() {
    assert_eq!(gamma_scaled(1.0, 1.0, 1.0).clamp_to_bytes(), [255, 255, 255]);
    assert_eq!(gamma_scaled(0.0, 0.0, 0.0).clamp_to_bytes(), [0, 0, 0]);
    assert_eq!(gamma_scaled(2.0, 2.0, 2.0).clamp_to_bytes(), [255, 255, 255]);
}

#[test]
fn mid_tones_as_pixels() {
    assert_eq!(gamma_scaled(0.25, 0.5, 0.81).clamp_to_bytes(), [127, 181, 230]);
    assert_eq!(v(0.0, 127.9, 255.0).clamp_to_bytes(), [0, 127, 255]);
    assert_eq!(v(-4.0, 300.0, 1.0).clamp_to_bytes(), [0, 255, 1]);
}

#[test]
fn channels_are_clamped_one_by_one() {
    assert_eq!(v(10.5, 1e9, -1e9).clamp_to_bytes(), [10, 255, 0]);
    assert_eq!(v(f64::INFINITY, f64::NEG_INFINITY, 254.9).clamp_to_bytes(), [255, 0, 254]);
}
