use model_blueprint::interpolate::Interpolation;
use model_blueprint::interpolate::LinearInterpolation;
use model_blueprint::interpolate::VectorPoint;
use model_blueprint::interpolate::default_interpolation;
use model_blueprint::math::Vec3;
use model_blueprint::timeline::sum;

fn point(x: i64, y: i64, z: i64, time: u32) -> VectorPoint {
    VectorPoint::new(Vec3::new(x, y, z), time, default_interpolation())
}

fn zero_vec() -> Vec3 {
    Vec3::new(0, 0, 0)
}

#[test]
fn merge_one_point_per_breakpoint() {
    let position = vec![point(0, 0, 0, 0), point(2, 0, 0, 1)];
    let rotation: Vec<VectorPoint> = Vec::new();
    let scale: Vec<VectorPoint> = Vec::new();
    let merged = sum(2, &position, &rotation, &scale);
    assert_eq!(merged.len(), 3);
    let times: Vec<u32> = merged.iter().map(|p| p.position.time).collect();
    assert_eq!(times, vec![0, 1, 2]);
    // past the last authored sample the value holds
    assert_eq!(merged[2].position.vector, Vec3::new(2, 0, 0));
    // unauthored channels resample to zero vectors at every breakpoint
    for p in &merged {
        assert_eq!(p.rotation.vector, zero_vec());
        assert_eq!(p.scale.vector, zero_vec());
        assert_eq!(p.rotation.time, p.position.time);
        assert_eq!(p.scale.time, p.position.time);
    }
}

#[test]
fn merge_breakpoints_ascending_with_endpoints() {
    let position = vec![point(5, 0, 0, 7)];
    let rotation = vec![point(0, 5, 0, 3)];
    let scale: Vec<VectorPoint> = Vec::new();
    let merged = sum(9, &position, &rotation, &scale);
    let times: Vec<u32> = merged.iter().map(|p| p.position.time).collect();
    assert_eq!(times, vec![0, 3, 7, 9]);
}

#[test]
fn merge_interpolates_between_neighbors() {
    let position = vec![point(0, 0, 0, 0), point(2, 0, 0, 2)];
    let rotation = vec![point(4, 0, 0, 1)];
    let scale: Vec<VectorPoint> = Vec::new();
    let merged = sum(2, &position, &rotation, &scale);
    assert_eq!(merged.len(), 3);
    // position linearly interpolated at the foreign breakpoint t=1
    assert_eq!(merged[1].position.vector, Vec3::new(1, 0, 0));
    // a single-sample channel repeats its vector at every breakpoint
    assert_eq!(merged[0].rotation.vector, Vec3::new(4, 0, 0));
    assert_eq!(merged[2].rotation.vector, Vec3::new(4, 0, 0));
}

#[test]
fn merge_authored_points_verbatim() {
    let position = vec![point(10, 20, 30, 1), point(40, 50, 60, 4)];
    let rotation: Vec<VectorPoint> = Vec::new();
    let scale: Vec<VectorPoint> = Vec::new();
    let merged = sum(5, &position, &rotation, &scale);
    let times: Vec<u32> = merged.iter().map(|p| p.position.time).collect();
    assert_eq!(times, vec![0, 1, 4, 5]);
    assert_eq!(merged[1].position, position[0]);
    assert_eq!(merged[2].position, position[1]);
}

#[test]
fn merge_idempotent_on_own_output() {
    let position = vec![point(0, 0, 0, 0), point(2, 0, 0, 1), point(8, 2, 4, 3)];
    let rotation = vec![point(0, 16, 0, 2)];
    let scale: Vec<VectorPoint> = Vec::new();
    let merged = sum(4, &position, &rotation, &scale);

    let again_pos: Vec<VectorPoint> = merged.iter().map(|p| p.position).collect();
    let again_rot: Vec<VectorPoint> = merged.iter().map(|p| p.rotation).collect();
    let again_scale: Vec<VectorPoint> = merged.iter().map(|p| p.scale).collect();
    let again = sum(4, &again_pos, &again_rot, &again_scale);
    assert_eq!(again, merged);
}

#[test]
fn interpolate_rounds_towards_start() {
    let points = vec![point(0, 0, 0, 0), point(1, -1, 5, 3)];
    let r = LinearInterpolation.interpolate(&points, 1, 1);
    // one third of the way: fractions round towards the earlier value
    assert_eq!(r.vector, Vec3::new(0, 0, 1));
    assert_eq!(r.time, 1);
    assert_eq!(r.interpolation, Interpolation::Linear);
}

#[test]
fn interpolate_degenerate_span_takes_later_sample() {
    let points = vec![point(7, 7, 7, 5), point(9, 9, 9, 5)];
    let r = LinearInterpolation.interpolate(&points, 1, 5);
    assert_eq!(r.vector, Vec3::new(9, 9, 9));
    assert_eq!(r.time, 5);
}

#[test]
fn merge_zero_length_single_breakpoint() {
    let position: Vec<VectorPoint> = Vec::new();
    let rotation: Vec<VectorPoint> = Vec::new();
    let scale: Vec<VectorPoint> = Vec::new();
    let merged = sum(0, &position, &rotation, &scale);
    assert_eq!(merged.len(), 1);
    assert_eq!(merged[0].position.time, 0);
    assert_eq!(merged[0].position.vector, zero_vec());
}
