use icon_compiler::geometry::{Affine, Point};
use icon_compiler::scene::{
    resolve_doc, Circle, Feature, Geometry, GroupAttrs, PathCmd, ResolveError, SceneDoc,
    SceneNode,
};

fn identity() -> Affine {
    Affine::identity()
}

fn plain_group(transform: Affine, opacity: u32, children: Vec<SceneNode>) -> SceneNode {
    SceneNode::Group(
        GroupAttrs {
            has_id: false,
            has_clip_path: false,
            has_mask: false,
            has_filter: false,
            transform,
            opacity,
        },
        children,
    )
}

fn path(cmds: Vec<PathCmd>) -> SceneNode {
    SceneNode::PathLeaf { visible: true, filled: true, cmds }
}

fn doc(children: Vec<SceneNode>) -> SceneDoc {
    SceneDoc { defs_nonempty: false, children }
}

#[test]
fn opacity_composes_by_multiplication() {
    // A leaf inside groups with opacities 0.50 and 0.80 resolves to 0.40.
    let tree = doc(vec![plain_group(
        identity(),
        50,
        vec![plain_group(
            identity(),
            80,
            vec![path(vec![PathCmd::MoveTo(Point { x: 0, y: 0 })])],
        )],
    )]);
    let shapes = resolve_doc(&tree).unwrap();
    assert_eq!(shapes.len(), 1);
    assert_eq!(shapes[0].opacity, 40);
}

#[test]
fn transforms_compose_ancestors_last() {
    // A local point (1, 0) inside translate(2, 0) inside scale(3) lands on
    // (9, 0): the inner translation applies first, the outer scale last.
    let scale3 = Affine { a: 300, b: 0, c: 0, d: 300, e: 0, f: 0 };
    let translate2 = Affine { a: 100, b: 0, c: 0, d: 100, e: 200, f: 0 };
    let tree = doc(vec![plain_group(
        scale3,
        100,
        vec![plain_group(
            translate2,
            100,
            vec![path(vec![PathCmd::MoveTo(Point { x: 100, y: 0 })])],
        )],
    )]);
    let shapes = resolve_doc(&tree).unwrap();
    assert_eq!(shapes.len(), 1);
    match &shapes[0].geometry {
        Geometry::Path(cmds) => {
            assert_eq!(cmds.len(), 1);
            assert_eq!(cmds[0], PathCmd::MoveTo(Point { x: 900, y: 0 }));
        }
        _ => panic!("expected a path"),
    }
}

#[test]
fn hidden_or_unfilled_leaves_contribute_nothing() {
    let tree = doc(vec![
        SceneNode::PathLeaf {
            visible: false,
            filled: true,
            cmds: vec![PathCmd::MoveTo(Point { x: 100, y: 100 })],
        },
        SceneNode::PathLeaf {
            visible: true,
            filled: false,
            cmds: vec![PathCmd::MoveTo(Point { x: 200, y: 200 })],
        },
        SceneNode::CircleLeaf {
            visible: false,
            filled: true,
            circle: Circle { cx: 0, cy: 0, r: 100 },
        },
    ]);
    let shapes = resolve_doc(&tree).unwrap();
    assert_eq!(shapes.len(), 0);
}

#[test]
fn draw_order_is_preserved() {
    let tree = doc(vec![
        path(vec![PathCmd::MoveTo(Point { x: 100, y: 0 })]),
        path(vec![PathCmd::MoveTo(Point { x: 200, y: 0 })]),
        path(vec![PathCmd::MoveTo(Point { x: 300, y: 0 })]),
    ]);
    let shapes = resolve_doc(&tree).unwrap();
    assert_eq!(shapes.len(), 3);
    for (i, shape) in shapes.iter().enumerate() {
        match &shape.geometry {
            Geometry::Path(cmds) => {
                assert_eq!(cmds[0], PathCmd::MoveTo(Point { x: 100 * (i as i64 + 1), y: 0 }))
            }
            _ => panic!("expected a path"),
        }
    }
}

#[test]
fn clip_path_is_rejected_by_name() {
    let tree = doc(vec![SceneNode::Group(
        GroupAttrs {
            has_id: false,
            has_clip_path: true,
            has_mask: false,
            has_filter: false,
            transform: identity(),
            opacity: 100,
        },
        vec![path(vec![PathCmd::MoveTo(Point { x: 0, y: 0 })])],
    )]);
    match resolve_doc(&tree) {
        Err(ResolveError::UnsupportedFeature(f)) => {
            assert_eq!(f, Feature::ClipPath);
            assert_eq!(f.label(), "clip-path");
        }
        _ => panic!("expected an unsupported-feature error"),
    }
}

#[test]
fn group_id_mask_and_filter_are_rejected() {
    for feature in [Feature::GroupId, Feature::Mask, Feature::Filter] {
        let attrs = GroupAttrs {
            has_id: feature == Feature::GroupId,
            has_clip_path: false,
            has_mask: feature == Feature::Mask,
            has_filter: feature == Feature::Filter,
            transform: identity(),
            opacity: 100,
        };
        match resolve_doc(&doc(vec![SceneNode::Group(attrs, vec![])])) {
            Err(ResolveError::UnsupportedFeature(f)) => assert_eq!(f, feature),
            _ => panic!("expected an unsupported-feature error"),
        }
    }
}

#[test]
fn unknown_node_kinds_are_rejected_by_name() {
    let tree = doc(vec![SceneNode::Other { kind: "text".to_owned() }]);
    match resolve_doc(&tree) {
        Err(ResolveError::UnsupportedNode(kind)) => assert_eq!(kind, "text"),
        _ => panic!("expected an unsupported-node error"),
    }
}

#[test]
fn group_opacity_outside_unit_range_is_rejected() {
    let tree = doc(vec![plain_group(identity(), 150, vec![])]);
    assert!(matches!(resolve_doc(&tree), Err(ResolveError::OpacityRange)));
}

#[test]
fn out_of_range_coordinates_are_rejected() {
    let tree = doc(vec![path(vec![PathCmd::MoveTo(Point {
        x: 100_000_001,
        y: 0,
    })])]);
    assert!(matches!(resolve_doc(&tree), Err(ResolveError::CoordinateRange)));
}

#[test]
fn circles_scale_under_uniform_transforms() {
    let scale2 = Affine { a: 200, b: 0, c: 0, d: 200, e: 100, f: 0 };
    let tree = doc(vec![plain_group(
        scale2,
        100,
        vec![SceneNode::CircleLeaf {
            visible: true,
            filled: true,
            circle: Circle { cx: 300, cy: 400, r: 500 },
        }],
    )]);
    let shapes = resolve_doc(&tree).unwrap();
    assert_eq!(shapes.len(), 1);
    match &shapes[0].geometry {
        Geometry::Circle(c) => {
            assert_eq!(c.cx, 700);
            assert_eq!(c.cy, 800);
            assert_eq!(c.r, 1000);
        }
        _ => panic!("expected a circle"),
    }
}

#[test]
fn circles_under_skewed_transforms_are_rejected() {
    let skew = Affine { a: 100, b: 50, c: 0, d: 100, e: 0, f: 0 };
    let tree = doc(vec![plain_group(
        skew,
        100,
        vec![SceneNode::CircleLeaf {
            visible: true,
            filled: true,
            circle: Circle { cx: 0, cy: 0, r: 100 },
        }],
    )]);
    match resolve_doc(&tree) {
        Err(ResolveError::UnsupportedFeature(f)) => assert_eq!(f, Feature::CircleTransform),
        _ => panic!("expected an unsupported-feature error"),
    }
}

#[test]
fn quad_and_curve_commands_transform_every_point() {
    let translate = Affine { a: 100, b: 0, c: 0, d: 100, e: 100, f: 200 };
    let tree = doc(vec![plain_group(
        translate,
        100,
        vec![path(vec![
            PathCmd::QuadTo(Point { x: 0, y: 0 }, Point { x: 100, y: 100 }),
            PathCmd::CurveTo(
                Point { x: 0, y: 0 },
                Point { x: 100, y: 0 },
                Point { x: 200, y: 0 },
            ),
            PathCmd::Close,
        ])],
    )]);
    let shapes = resolve_doc(&tree).unwrap();
    match &shapes[0].geometry {
        Geometry::Path(cmds) => {
            assert_eq!(
                cmds[0],
                PathCmd::QuadTo(Point { x: 100, y: 200 }, Point { x: 200, y: 300 })
            );
            assert_eq!(
                cmds[1],
                PathCmd::CurveTo(
                    Point { x: 100, y: 200 },
                    Point { x: 200, y: 200 },
                    Point { x: 300, y: 200 },
                )
            );
            assert_eq!(cmds[2], PathCmd::Close);
        }
        _ => panic!("expected a path"),
    }
}
