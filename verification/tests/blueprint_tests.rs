use base64::Engine;
use model_blueprint::animation::BlueprintAnimation;
use model_blueprint::blueprint::BlueprintChildren;
use model_blueprint::blueprint::BlueprintError;
use model_blueprint::blueprint::BlueprintGroup;
use model_blueprint::blueprint::BlueprintTexture;
use model_blueprint::blueprint::ModelBlueprint;
use model_blueprint::bone::get_registry;
use model_blueprint::bone::BoneTagRegistry;
use model_blueprint::math::Vec3;
use model_blueprint::model::DataPoint;
use model_blueprint::model::KeyFrameChannel;
use model_blueprint::model::ModelAnimation;
use model_blueprint::model::ModelAnimator;
use model_blueprint::model::ModelChildren;
use model_blueprint::model::ModelData;
use model_blueprint::model::ModelElement;
use model_blueprint::model::ModelFace;
use model_blueprint::model::ModelGroupe;
use model_blueprint::model::ModelKeyFrame;
use model_blueprint::model::ModelResolution;
use model_blueprint::model::ModelTexture;
use model_blueprint::model::ModelUV;
use model_blueprint::model::ModelUUID;
use model_blueprint::model::UvQuad;
use model_blueprint::model::DEFAULT_SCALE;
use model_blueprint::animation::AnimationType;

fn uv() -> ModelUV {
    ModelUV { uv: UvQuad { dx: 0, dz: 0, tx: 0, ty: 0 }, rotation: 0, texture: String::from("#0") }
}

fn element(uuid: &str) -> ModelElement {
    ModelElement {
        name: String::from("cube"),
        uuid: String::from(uuid),
        from: Vec3::new(0, 0, 0),
        to: Vec3::new(3, 4, 0),
        inflate: 0,
        rotation: Vec3::new(0, 0, 0),
        origin: Vec3::new(0, 0, 0),
        faces: ModelFace { up: uv(), down: uv(), north: uv(), south: uv(), west: uv(), east: uv() },
        visibility: false,
    }
}

fn texture(name: &str, source: String) -> ModelTexture {
    ModelTexture {
        name: String::from(name),
        source,
        width: 1,
        height: 1,
        uv_width: 16,
        uv_height: 16,
    }
}

fn png_data_url(r: u8, g: u8, b: u8, a: u8) -> String {
    let img: image::ImageBuffer<image::Rgba<u8>, Vec<u8>> =
        image::ImageBuffer::from_pixel(1, 1, image::Rgba([r, g, b, a]));
    let mut bytes: Vec<u8> = Vec::new();
    img.write_to(&mut std::io::Cursor::new(&mut bytes), image::ImageFormat::Png).unwrap();
    let encoded = base64::prelude::BASE64_STANDARD.encode(&bytes);
    format!("data:image/png;base64,{}", encoded)
}

fn animation(name: &str, length: u32, animators: Vec<(String, ModelAnimator)>) -> ModelAnimation {
    ModelAnimation {
        name: String::from(name),
        looptype: AnimationType::PlayOnce,
        overriding: false,
        uuid: String::from("u"),
        length,
        animators,
    }
}

fn keyframe(time: u32) -> ModelKeyFrame {
    ModelKeyFrame {
        channel: KeyFrameChannel::Position,
        data_points: vec![DataPoint { x: 16, y: 0, z: 0, script: String::new() }],
        bezier_left_time: Vec3::new(0, 0, 0),
        bezier_left_value: Vec3::new(0, 0, 0),
        bezier_right_time: Vec3::new(0, 0, 0),
        bezier_right_value: Vec3::new(0, 0, 0),
        interpolation: None,
        uuid: String::new(),
        time,
    }
}

#[test]
fn texture_round_trip_decodes_pixels() {
    let t = texture("skin", png_data_url(10, 20, 30, 255));
    let decoded = BlueprintTexture::from(&t).expect("texture should decode");
    assert_eq!(decoded.name, "skin");
    assert_eq!(decoded.image.width, 1);
    assert_eq!(decoded.image.height, 1);
    assert_eq!(decoded.image.pixels, vec![10, 20, 30, 255]);
    assert_eq!(decoded.uv_width, 16);
    assert_eq!(decoded.uv_height, 16);
}

#[test]
fn texture_without_payload_is_invalid() {
    let t = texture("skin", String::from("no data url here"));
    let e = match BlueprintTexture::from(&t) {
        Ok(_) => panic!("decode should fail"),
        Err(e) => e,
    };
    assert!(matches!(e, BlueprintError::InvalidDataUrl { ref texture } if texture == "skin"));
}

#[test]
fn texture_with_bad_base64_fails() {
    let t = texture("skin", String::from("data:image/png;base64,@@@@"));
    let e = match BlueprintTexture::from(&t) {
        Ok(_) => panic!("decode should fail"),
        Err(e) => e,
    };
    assert!(matches!(e, BlueprintError::Base64Decode { ref texture } if texture == "skin"));
}

#[test]
fn texture_with_undecodable_bytes_fails() {
    let t = texture("skin", String::from("data:image/png;base64,AAAA"));
    let e = match BlueprintTexture::from(&t) {
        Ok(_) => panic!("decode should fail"),
        Err(e) => e,
    };
    assert!(matches!(e, BlueprintError::ImageDecode { ref texture } if texture == "skin"));
}

#[test]
fn leaf_reference_resolves_to_its_element() {
    let registry = get_registry();
    let elements = vec![element("e-1")];
    let raw = ModelChildren::Element(ModelUUID { uuid: String::from("e-1") });
    let resolved = BlueprintChildren::from(&raw, &elements, &registry).unwrap();
    match resolved {
        BlueprintChildren::Element(e) => assert_eq!(e.uuid, "e-1"),
        BlueprintChildren::Group(_) => panic!("expected an element"),
    }
}

#[test]
fn missing_element_reference_is_fatal() {
    let registry = get_registry();
    let elements = vec![element("e-1")];
    let raw = ModelChildren::Group(ModelGroupe {
        name: String::from("g"),
        origin: Vec3::new(0, 0, 0),
        rotation: Vec3::new(0, 0, 0),
        uuid: String::from("g-1"),
        children: vec![ModelChildren::Element(ModelUUID { uuid: String::from("absent") })],
    });
    let e = match BlueprintChildren::from(&raw, &elements, &registry) {
        Ok(_) => panic!("resolution should fail"),
        Err(e) => e,
    };
    assert!(matches!(e, BlueprintError::MissingElement { ref uuid } if uuid == "absent"));
}

fn empty_group(name: &str) -> BlueprintGroup {
    BlueprintGroup {
        name: BoneTagRegistry::new().parse(name),
        origin: Vec3::new(0, 0, 0),
        rotation: Vec3::new(0, 0, 0),
        children: Vec::new(),
    }
}

#[test]
fn empty_bone_map_populates_empty_animator() {
    let registry = get_registry();
    let root = empty_group("root");
    let anim = animation("idle", 9, Vec::new());
    let resolved = BlueprintAnimation::from(&registry, &root, &anim);
    assert_eq!(resolved.empty_animator.len(), 2);
    assert_eq!(resolved.empty_animator[0].time, 0);
    assert_eq!(resolved.empty_animator[1].time, 9);
    assert_eq!(resolved.name, "idle");
    assert_eq!(resolved.length, 9);
}

#[test]
fn authored_bone_map_leaves_empty_animator_empty() {
    let registry = get_registry();
    let root = empty_group("bone");
    let animator = ModelAnimator { name: Some(String::from("bone")), keyframes: vec![keyframe(1)] };
    let anim = animation("walk", 4, vec![(String::from("id-1"), animator)]);
    let resolved = BlueprintAnimation::from(&registry, &root, &anim);
    assert!(resolved.empty_animator.is_empty());
    assert_eq!(resolved.animator.len(), 1);
    assert_eq!(resolved.animator[0].1.name, "bone");
}

#[test]
fn effect_entry_defines_script_channel() {
    let registry = get_registry();
    let root = empty_group("root");
    let animator = ModelAnimator { name: Some(String::from("x")), keyframes: Vec::new() };
    let mut anim = animation("fx", 3, vec![(String::from("effect"), animator)]);
    anim.overriding = true;
    let resolved = BlueprintAnimation::from(&registry, &root, &anim);
    let script = resolved.script.expect("effect entry should define the script channel");
    assert_eq!(script.name, "fx");
    assert_eq!(script.length, 3);
    assert_eq!(script.scripts.len(), 2);
    assert_eq!(script.scripts[0].time, 0);
    assert_eq!(script.scripts[1].time, 3);
}

#[test]
fn overriding_animation_without_effect_has_no_script() {
    let registry = get_registry();
    let root = empty_group("root");
    let mut anim = animation("fx", 3, Vec::new());
    anim.overriding = true;
    let resolved = BlueprintAnimation::from(&registry, &root, &anim);
    assert!(resolved.script.is_none());
}

#[test]
fn whole_blueprint_resolves() {
    let registry = get_registry();
    let animator = ModelAnimator { name: Some(String::from("g")), keyframes: vec![keyframe(1)] };
    let data = ModelData {
        name: String::from("creature"),
        resolution: ModelResolution { width: 16, height: 16 },
        elements: vec![element("e-1")],
        outliner: vec![ModelChildren::Group(ModelGroupe {
            name: String::from("g"),
            origin: Vec3::new(0, 0, 0),
            rotation: Vec3::new(0, 0, 0),
            uuid: String::from("g-1"),
            children: vec![ModelChildren::Element(ModelUUID { uuid: String::from("e-1") })],
        })],
        textures: vec![texture("skin", png_data_url(1, 2, 3, 4))],
        animations: vec![animation("walk", 2, vec![(String::from("id"), animator)])],
    };
    let blueprint = ModelBlueprint::from(&registry, data).expect("blueprint should build");
    assert_eq!(blueprint.name, "creature");
    // the longest element diagonal: sqrt(3*3 + 4*4) = 5
    assert_eq!(blueprint.scale, 5);
    assert_eq!(blueprint.group.len(), 1);
    assert_eq!(blueprint.textures.len(), 1);
    assert_eq!(blueprint.animations.len(), 1);
    assert_eq!(blueprint.animations[0].0, "walk");
    let resolved = &blueprint.animations[0].1;
    assert_eq!(resolved.animator.len(), 1);
    assert_eq!(resolved.animator[0].1.name, "g");
}

#[test]
fn blueprint_with_no_elements_takes_default_scale() {
    let registry = get_registry();
    let data = ModelData {
        name: String::from("empty"),
        resolution: ModelResolution { width: 16, height: 16 },
        elements: Vec::new(),
        outliner: Vec::new(),
        textures: Vec::new(),
        animations: Vec::new(),
    };
    let blueprint = ModelBlueprint::from(&registry, data).unwrap();
    assert_eq!(blueprint.scale, DEFAULT_SCALE);
}

#[test]
fn blueprint_fails_on_missing_reference() {
    let registry = get_registry();
    let data = ModelData {
        name: String::from("broken"),
        resolution: ModelResolution { width: 16, height: 16 },
        elements: Vec::new(),
        outliner: vec![ModelChildren::Element(ModelUUID { uuid: String::from("ghost") })],
        textures: Vec::new(),
        animations: Vec::new(),
    };
    let e = match ModelBlueprint::from(&registry, data) {
        Ok(_) => panic!("build should fail"),
        Err(e) => e,
    };
    assert!(matches!(e, BlueprintError::MissingElement { ref uuid } if uuid == "ghost"));
}
