use model_blueprint::math::check_valid_degree;
use model_blueprint::math::div_trunc;
use model_blueprint::math::valid_rotation_degree;
use model_blueprint::math::Vec3;
use model_blueprint::math::ROTATION_DEGREE;
use model_blueprint::model::isqrt;
use model_blueprint::model::ModelElement;
use model_blueprint::model::ModelFace;
use model_blueprint::model::ModelUV;
use model_blueprint::model::UvQuad;

#[test]
fn truncating_division_rounds_towards_zero() {
    assert_eq!(div_trunc(33, 16), 2);
    assert_eq!(div_trunc(-33, 16), -2);
    assert_eq!(div_trunc(0, 16), 0);
    assert_eq!(div_trunc(-15, 16), 0);
}

#[test]
fn vector_arithmetic() {
    let a = Vec3::new(1, 2, 3);
    let b = Vec3::new(10, 20, 30);
    assert_eq!(a.add(&b), Vec3::new(11, 22, 33));
    assert_eq!(b.sub(&a), Vec3::new(9, 18, 27));
    assert_eq!(a.mul(&b), Vec3::new(10, 40, 90));
    assert_eq!(Vec3::new(32, -48, 17).to_block_scale(), Vec3::new(2, -3, 1));
    assert_eq!(Vec3::new(1, 2, 3).invert_xz(), Vec3::new(-3, 2, -1));
    assert_eq!(Vec3::flat(7), Vec3::new(7, 7, 7));
}

#[test]
fn rotation_degrees() {
    assert!(valid_rotation_degree(0));
    assert!(valid_rotation_degree(ROTATION_DEGREE));
    assert!(valid_rotation_degree(-2 * ROTATION_DEGREE));
    assert!(!valid_rotation_degree(5));
    // one zero component is fine, two are not
    assert!(check_valid_degree(Vec3::new(ROTATION_DEGREE, ROTATION_DEGREE, 0)));
    assert!(!check_valid_degree(Vec3::new(ROTATION_DEGREE, 0, 0)));
    assert!(!check_valid_degree(Vec3::new(5, ROTATION_DEGREE, ROTATION_DEGREE)));
}

#[test]
fn floor_square_roots() {
    assert_eq!(isqrt(0), 0);
    assert_eq!(isqrt(1), 1);
    assert_eq!(isqrt(15), 3);
    assert_eq!(isqrt(16), 4);
    assert_eq!(isqrt(24), 4);
    assert_eq!(isqrt(25), 5);
}

fn uv() -> ModelUV {
    ModelUV { uv: UvQuad { dx: 0, dz: 0, tx: 0, ty: 0 }, rotation: 0, texture: String::from("#0") }
}

#[test]
fn element_diagonal_length() {
    let e = ModelElement {
        name: String::from("cube"),
        uuid: String::from("u"),
        from: Vec3::new(0, 0, 0),
        to: Vec3::new(3, 4, 12),
        inflate: 0,
        rotation: Vec3::new(0, 0, 0),
        origin: Vec3::new(0, 0, 0),
        faces: ModelFace { up: uv(), down: uv(), north: uv(), south: uv(), west: uv(), east: uv() },
        visibility: false,
    };
    // sqrt(9 + 16 + 144) = 13
    assert_eq!(e.max(), 13);
}
