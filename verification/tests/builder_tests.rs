use model_blueprint::animation::BlueprintAnimator;
use model_blueprint::interpolate::Interpolation;
use model_blueprint::math::Vec3;
use model_blueprint::math::SCALAR_ONE;
use model_blueprint::model::sort_keyframes;
use model_blueprint::model::DataPoint;
use model_blueprint::model::KeyFrameChannel;
use model_blueprint::model::ModelKeyFrame;

fn keyframe(channel: KeyFrameChannel, time: u32, x: i64, y: i64, z: i64) -> ModelKeyFrame {
    ModelKeyFrame {
        channel,
        data_points: vec![DataPoint { x, y, z, script: String::new() }],
        bezier_left_time: Vec3::new(0, 0, 0),
        bezier_left_value: Vec3::new(0, 0, 0),
        bezier_right_time: Vec3::new(0, 0, 0),
        bezier_right_value: Vec3::new(0, 0, 0),
        interpolation: None,
        uuid: String::new(),
        time,
    }
}

#[test]
fn dedup_keeps_first_seen_value() {
    let mut builder = BlueprintAnimator::builder(10);
    builder.add_frame(&keyframe(KeyFrameChannel::Position, 1, 16, 32, 48));
    builder.add_frame(&keyframe(KeyFrameChannel::Position, 1, 160, 160, 160));
    let data = builder.build(String::from("bone"));
    assert_eq!(data.name, "bone");
    // breakpoints 0, 1, 10; the single deduplicated sample repeats everywhere
    assert_eq!(data.points.len(), 3);
    for p in &data.points {
        assert_eq!(p.position.vector, Vec3::new(1, 2, -3));
    }
}

#[test]
fn frames_past_the_length_bound_are_dropped() {
    let mut builder = BlueprintAnimator::builder(10);
    builder.add_frame(&keyframe(KeyFrameChannel::Position, 11, 16, 16, 16));
    let data = builder.build(String::from("bone"));
    let times: Vec<u32> = data.points.iter().map(|p| p.position.time).collect();
    assert_eq!(times, vec![0, 10]);
    for p in &data.points {
        assert_eq!(p.position.vector, Vec3::new(0, 0, 0));
    }
}

#[test]
fn position_scaled_and_mirrored_for_display() {
    let mut builder = BlueprintAnimator::builder(5);
    builder.add_frame(&keyframe(KeyFrameChannel::Position, 2, 32, -48, 64));
    let data = builder.build(String::from("b"));
    let authored = data.points.iter().find(|p| p.position.time == 2).unwrap();
    assert_eq!(authored.position.vector, Vec3::new(2, -3, -4));
}

#[test]
fn rotation_mirrored_for_display() {
    let mut builder = BlueprintAnimator::builder(5);
    builder.add_frame(&keyframe(KeyFrameChannel::Rotation, 2, 7, 8, 9));
    let data = builder.build(String::from("b"));
    let authored = data.points.iter().find(|p| p.rotation.time == 2).unwrap();
    assert_eq!(authored.rotation.vector, Vec3::new(7, -8, -9));
}

#[test]
fn scale_becomes_zero_based_delta() {
    let mut builder = BlueprintAnimator::builder(5);
    builder.add_frame(&keyframe(KeyFrameChannel::Scale, 2, SCALAR_ONE + 5, SCALAR_ONE, SCALAR_ONE - 7));
    let data = builder.build(String::from("b"));
    let authored = data.points.iter().find(|p| p.scale.time == 2).unwrap();
    assert_eq!(authored.scale.vector, Vec3::new(5, 0, -7));
}

#[test]
fn reserved_channels_are_ignored() {
    let mut builder = BlueprintAnimator::builder(5);
    builder.add_frame(&keyframe(KeyFrameChannel::Sound, 2, 1, 1, 1));
    builder.add_frame(&keyframe(KeyFrameChannel::Timeline, 3, 1, 1, 1));
    let data = builder.build(String::from("b"));
    let times: Vec<u32> = data.points.iter().map(|p| p.position.time).collect();
    assert_eq!(times, vec![0, 5]);
}

#[test]
fn find_interpolation_falls_back_to_linear() {
    let mut named = keyframe(KeyFrameChannel::Position, 0, 0, 0, 0);
    named.interpolation = Some(String::from("catmullrom"));
    assert_eq!(named.find_interpolation(), Interpolation::Linear);
    let unnamed = keyframe(KeyFrameChannel::Position, 0, 0, 0, 0);
    assert_eq!(unnamed.find_interpolation(), Interpolation::Linear);
}

#[test]
fn sort_keyframes_is_stable() {
    let mut a = keyframe(KeyFrameChannel::Position, 2, 0, 0, 0);
    a.uuid = String::from("a");
    let mut b = keyframe(KeyFrameChannel::Position, 1, 0, 0, 0);
    b.uuid = String::from("b");
    let mut c = keyframe(KeyFrameChannel::Position, 1, 0, 0, 0);
    c.uuid = String::from("c");
    let sorted = sort_keyframes(vec![a, b, c]);
    let order: Vec<&str> = sorted.iter().map(|k| k.uuid.as_str()).collect();
    assert_eq!(order, vec!["b", "c", "a"]);
}
