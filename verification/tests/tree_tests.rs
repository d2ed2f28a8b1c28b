use model_blueprint::animation::AnimationGenerator;
use model_blueprint::animation::AnimationTree;
use model_blueprint::animation::AnimatorData;
use model_blueprint::animation::BlueprintAnimator;
use model_blueprint::blueprint::BlueprintChildren;
use model_blueprint::blueprint::BlueprintGroup;
use model_blueprint::bone::BoneName;
use model_blueprint::bone::BoneTagRegistry;
use model_blueprint::interpolate::VectorPoint;
use model_blueprint::interpolate::default_interpolation;
use model_blueprint::animation::AnimationPoint;
use model_blueprint::math::Vec3;
use model_blueprint::timeline::sum;

fn bone(name: &str) -> BoneName {
    BoneTagRegistry::new().parse(name)
}

fn group(name: &str, children: Vec<BlueprintChildren>) -> BlueprintGroup {
    BlueprintGroup {
        name: bone(name),
        origin: Vec3::new(0, 0, 0),
        rotation: Vec3::new(0, 0, 0),
        children,
    }
}

fn sample_points() -> Vec<AnimationPoint> {
    let position = vec![VectorPoint::new(Vec3::new(1, 0, 0), 0, default_interpolation())];
    let empty: Vec<VectorPoint> = Vec::new();
    sum(2, &position, &empty, &empty)
}

#[test]
fn tree_mirrors_hierarchy_groups() {
    // root owning: group a (owning group b), group c; elements own no node
    let b = group("b", Vec::new());
    let a = group("a", vec![BlueprintChildren::Group(b)]);
    let c = group("c", Vec::new());
    let root = group(
        "root",
        vec![BlueprintChildren::Group(a), BlueprintChildren::Group(c)],
    );
    let map: Vec<(BoneName, AnimatorData)> = vec![
        (bone("b"), AnimatorData { name: String::from("b"), points: sample_points() }),
    ];
    let tree = AnimationTree::new_root(&map, &root, Vec::new());
    assert_eq!(tree.nodes.len(), 4);
    // pre-order: root, a, b, c
    assert_eq!(tree.nodes[0].name.raw_name, "root");
    assert_eq!(tree.nodes[1].name.raw_name, "a");
    assert_eq!(tree.nodes[2].name.raw_name, "b");
    assert_eq!(tree.nodes[3].name.raw_name, "c");
    assert_eq!(tree.nodes[0].children, vec![1, 3]);
    assert_eq!(tree.nodes[1].children, vec![2]);
    assert!(tree.nodes[2].children.is_empty());
    assert!(tree.nodes[3].children.is_empty());
    assert_eq!(tree.nodes[0].parent, None);
    assert_eq!(tree.nodes[1].parent, Some(0));
    assert_eq!(tree.nodes[2].parent, Some(1));
    assert_eq!(tree.nodes[3].parent, Some(0));
    // authored bone picks its merged points up; unauthored nodes stay empty
    assert_eq!(tree.nodes[2].points, sample_points());
    assert!(tree.nodes[1].points.is_empty());
    assert!(tree.nodes[0].points.is_empty());
}

#[test]
fn flatten_leaves_returns_childless_nodes_in_order() {
    let b = group("b", Vec::new());
    let a = group("a", vec![BlueprintChildren::Group(b)]);
    let c = group("c", Vec::new());
    let root = group(
        "root",
        vec![BlueprintChildren::Group(a), BlueprintChildren::Group(c)],
    );
    let map: Vec<(BoneName, AnimatorData)> = Vec::new();
    let tree = AnimationTree::new_root(&map, &root, Vec::new());
    let leaves = tree.flatten_leaves();
    assert_eq!(leaves.len(), 2);
    let names: Vec<&str> = leaves.iter().map(|k| tree.nodes[*k].name.raw_name.as_str()).collect();
    assert_eq!(names, vec!["b", "c"]);
}

#[test]
fn generator_builds_one_tree_per_group_child() {
    let a = group("a", Vec::new());
    let c = group("c", Vec::new());
    let children = vec![BlueprintChildren::Group(a), BlueprintChildren::Group(c)];
    let map: Vec<(BoneName, AnimatorData)> = Vec::new();
    let generator = AnimationGenerator::new(map, children);
    assert_eq!(generator.trees.len(), 2);
    assert_eq!(generator.trees[0].nodes.len(), 1);
    assert_eq!(generator.trees[1].nodes.len(), 1);
}

#[test]
fn create_movements_converts_authored_bones() {
    let leaf = group("arm", Vec::new());
    let root = group("root", vec![BlueprintChildren::Group(leaf)]);
    let points = sample_points();
    let map = vec![
        (bone("arm"), AnimatorData { name: String::from("arm"), points: points.clone() }),
    ];
    let out = AnimationGenerator::create_movements(&root, map, 2);
    assert_eq!(out.len(), 1);
    assert_eq!(out[0].1.name, "arm");
    assert_eq!(out[0].1.key_frame.len(), points.len());
    for (movement, point) in out[0].1.key_frame.iter().zip(points.iter()) {
        assert_eq!(movement.time, point.position.time);
        assert_eq!(movement.transform, point.position.vector);
        assert_eq!(movement.rotation, point.rotation.vector);
        assert_eq!(movement.scale, point.scale.vector);
    }
}

#[test]
fn create_movements_fills_missing_leaves_with_placeholders() {
    let leaf = group("arm", Vec::new());
    let other = group("leg", Vec::new());
    let root = group(
        "root",
        vec![BlueprintChildren::Group(leaf), BlueprintChildren::Group(other)],
    );
    let map = vec![
        (bone("arm"), AnimatorData { name: String::from("arm"), points: sample_points() }),
    ];
    let out = AnimationGenerator::create_movements(&root, map, 7);
    assert_eq!(out.len(), 2);
    let placeholder: Vec<&(BoneName, BlueprintAnimator)> =
        out.iter().filter(|e| e.0.raw_name == "leg").collect();
    assert_eq!(placeholder.len(), 1);
    let track = &placeholder[0].1.key_frame;
    assert_eq!(track.len(), 2);
    assert_eq!(track[0].time, 0);
    assert_eq!(track[1].time, 7);
    assert_eq!(track[0].transform, Vec3::new(0, 0, 0));
    assert_eq!(track[1].transform, Vec3::new(0, 0, 0));
}
