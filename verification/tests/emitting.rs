use icon_compiler::emit::{emit_table, sort_icons, EmitError, ResolvedIcon};
use icon_compiler::geometry::Point;
use icon_compiler::ident::const_name;
use icon_compiler::scan::IconKey;
use icon_compiler::scene::{Geometry, OpacityShape, PathCmd, SceneDoc, SceneNode};
use icon_compiler::text::string_from_chars;
use icon_compiler::{compile_icons, BuildError, IconInput};
use icon_compiler::scan::SourceRecord;

fn key(category: &str, name: &str, variant: &str) -> IconKey {
    IconKey {
        category: category.to_owned(),
        name: name.to_owned(),
        variant: variant.to_owned(),
    }
}

fn path_icon(category: &str, name: &str, variant: &str, size: u32, cmds: Vec<PathCmd>) -> ResolvedIcon {
    ResolvedIcon {
        key: key(category, name, variant),
        size,
        shapes: vec![OpacityShape { geometry: Geometry::Path(cmds), opacity: 100 }],
    }
}

fn input(category: &str, name: &str, size: u32, path: &str, children: Vec<SceneNode>) -> IconInput {
    IconInput {
        record: SourceRecord {
            key: key(category, name, "normal"),
            size,
            path: path.to_owned(),
        },
        doc: SceneDoc { defs_nonempty: false, children },
    }
}

fn simple_path_node(x: i64, y: i64) -> SceneNode {
    SceneNode::PathLeaf {
        visible: true,
        filled: true,
        cmds: vec![PathCmd::MoveTo(Point { x, y })],
    }
}

#[test]
fn const_name_upper_snake_cases_names() {
    assert_eq!(const_name(&"add_box".to_owned()), "ADD_BOX");
    assert_eq!(const_name(&"Add".to_owned()), "ADD");
    assert_eq!(const_name(&"addBox".to_owned()), "ADD_BOX");
}

#[test]
fn const_name_guards_leading_digits() {
    // A digit-leading name gets an underscore, uniformly; the identifier
    // never starts with a digit.
    assert_eq!(const_name(&"3d_rotation".to_owned()), "_3D_ROTATION");
    assert_eq!(const_name(&"360".to_owned()), "_360");
    assert_eq!(const_name(&"4k".to_owned()), "_4K");
}

#[test]
fn string_from_chars_round_trips() {
    let s = string_from_chars(&vec!['a', 'b', 'c']);
    assert_eq!(s, "abc");
}

#[test]
fn emitted_geometry_round_trips_exactly() {
    // MoveTo(0,0), LineTo(10,0), CurveTo((10,5),(5,10),(0,10)), ClosePath:
    // the emitted text preserves the command kinds and order, with every
    // coordinate at two decimal places.
    let icon = path_icon(
        "action",
        "add",
        "normal",
        24,
        vec![
            PathCmd::MoveTo(Point { x: 0, y: 0 }),
            PathCmd::LineTo(Point { x: 1000, y: 0 }),
            PathCmd::CurveTo(
                Point { x: 1000, y: 500 },
                Point { x: 500, y: 1000 },
                Point { x: 0, y: 1000 },
            ),
            PathCmd::Close,
        ],
    );
    let out = emit_table(vec![icon]).unwrap();
    let expected = "\n// normal/action\npub const ADD: IconPaths = IconPaths {\n    paths: &[\
IconShape::Path { els: &[\
PathEl::MoveTo(Point { x: 0.00, y: 0.00 }), \
PathEl::LineTo(Point { x: 10.00, y: 0.00 }), \
PathEl::CurveTo(Point { x: 10.00, y: 5.00 }, Point { x: 5.00, y: 10.00 }, Point { x: 0.00, y: 10.00 }), \
PathEl::ClosePath, \
], opacity: 1.00 }, ],\n    size: Size { width: 24.00, height: 24.00 },\n};\n";
    assert_eq!(out, expected);
}

#[test]
fn negative_coordinates_keep_their_sign() {
    let icon = path_icon(
        "action",
        "back",
        "normal",
        24,
        vec![
            PathCmd::MoveTo(Point { x: -50, y: -12345 }),
            PathCmd::LineTo(Point { x: 5, y: -5 }),
        ],
    );
    let out = emit_table(vec![icon]).unwrap();
    assert!(out.contains("Point { x: -0.50, y: -123.45 }"));
    assert!(out.contains("Point { x: 0.05, y: -0.05 }"));
}

#[test]
fn table_is_ordered_by_variant_category_name() {
    let icons = vec![
        path_icon("zone", "beta", "normal", 24, vec![PathCmd::Close]),
        path_icon("action", "delta", "outlined", 24, vec![PathCmd::Close]),
        path_icon("action", "alpha", "normal", 24, vec![PathCmd::Close]),
    ];
    let sorted = sort_icons(icons);
    assert_eq!(sorted[0].key.variant, "normal");
    assert_eq!(sorted[0].key.category, "action");
    assert_eq!(sorted[0].key.name, "alpha");
    assert_eq!(sorted[1].key.category, "zone");
    assert_eq!(sorted[2].key.variant, "outlined");
}

#[test]
fn identifier_collisions_are_fatal() {
    // "Add" and "add" normalize to the same identifier: no output is
    // produced at all.
    let icons = vec![
        path_icon("action", "Add", "normal", 24, vec![PathCmd::Close]),
        path_icon("toggle", "add", "normal", 24, vec![PathCmd::Close]),
    ];
    match emit_table(icons) {
        Err(EmitError::IdentCollision(first, second)) => {
            assert_eq!(const_name(&first), const_name(&second));
        }
        _ => panic!("expected an identifier collision"),
    }
}

#[test]
fn compile_reports_collisions_before_writing() {
    let inputs = vec![
        input("action", "Add", 24, "p1", vec![simple_path_node(0, 0)]),
        input("toggle", "add", 24, "p2", vec![simple_path_node(100, 0)]),
    ];
    assert!(matches!(
        compile_icons(inputs),
        Err(BuildError::Collision(_, _))
    ));
}

#[test]
fn compile_reports_the_failing_file() {
    let inputs = vec![
        input("action", "add", 24, "good", vec![simple_path_node(0, 0)]),
        input(
            "action",
            "bad",
            24,
            "the-bad-file",
            vec![SceneNode::Other { kind: "image".to_owned() }],
        ),
    ];
    match compile_icons(inputs) {
        Err(BuildError::Resolve(path, _)) => assert_eq!(path, "the-bad-file"),
        _ => panic!("expected a resolve error"),
    }
}

#[test]
fn identical_inputs_give_identical_output() {
    // Determinism: running the pipeline twice over an unchanged input set
    // yields byte-identical text.
    let make = || {
        vec![
            input("action", "add", 24, "p1", vec![simple_path_node(0, 0)]),
            input("alert", "warning", 48, "p2", vec![simple_path_node(100, 200)]),
        ]
    };
    let out1 = compile_icons(make()).unwrap();
    let out2 = compile_icons(make()).unwrap();
    assert_eq!(out1, out2);
}

#[test]
fn an_empty_input_set_emits_an_empty_table() {
    let out = compile_icons(vec![]).unwrap();
    assert_eq!(out, "");
}
