//! The scene resolver: a recursive descent over a parsed icon scene graph
//! that composes transforms and opacities down the tree, filters hidden and
//! unfilled leaves, validates that only the supported subset of the scene
//! vocabulary is used, and emits one flat, painter-ordered shape list.
use vstd::prelude::*;

use crate::geometry::{
    apply_stack, apply_stack_spec, in_range, mul_opacity, opacity_mul, round_div_100, stack_ok,
    Affine, Point, COORD_LIMIT, OPACITY_FULL, RAW_LIMIT,
};

verus! {

/// One path command, with points in hundredths.
#[derive(Clone, Copy, PartialEq, Eq, Structural, Debug)]
pub enum PathCmd {
    MoveTo(Point),
    LineTo(Point),
    QuadTo(Point, Point),
    CurveTo(Point, Point, Point),
    Close,
}

/// A circle with center and radius in hundredths.
#[derive(Clone, Copy, PartialEq, Eq, Structural, Debug)]
pub struct Circle {
    pub cx: i64,
    pub cy: i64,
    pub r: i64,
}

/// Flattened geometry of one shape.
#[derive(Debug)]
pub enum Geometry {
    Path(Vec<PathCmd>),
    Circle(Circle),
}

/// One resolved shape: flattened geometry plus its composed opacity in
/// hundredths.
#[derive(Debug)]
pub struct OpacityShape {
    pub geometry: Geometry,
    pub opacity: u32,
}

/// Mathematical model of a path command.
pub ghost enum GCmd {
    MoveTo(int, int),
    LineTo(int, int),
    QuadTo(int, int, int, int),
    CurveTo(int, int, int, int, int, int),
    Close,
}

/// Mathematical model of a shape's geometry.
pub ghost enum GGeom {
    Path(Seq<GCmd>),
    Circle(int, int, int),
}

/// Mathematical model of a resolved shape.
pub ghost struct GShape {
    pub geom: GGeom,
    pub opacity: int,
}

impl View for PathCmd {
    type V = GCmd;

    open spec fn view(&self) -> GCmd {
        match *self {
            PathCmd::MoveTo(p) => GCmd::MoveTo(p.x as int, p.y as int),
            PathCmd::LineTo(p) => GCmd::LineTo(p.x as int, p.y as int),
            PathCmd::QuadTo(p1, p) => GCmd::QuadTo(p1.x as int, p1.y as int, p.x as int, p.y as int),
            PathCmd::CurveTo(p1, p2, p) => GCmd::CurveTo(
                p1.x as int,
                p1.y as int,
                p2.x as int,
                p2.y as int,
                p.x as int,
                p.y as int,
            ),
            PathCmd::Close => GCmd::Close,
        }
    }
}

impl View for Geometry {
    type V = GGeom;

    open spec fn view(&self) -> GGeom {
        match self {
            Geometry::Path(cmds) => GGeom::Path(cmds@.map_values(|c: PathCmd| c@)),
            Geometry::Circle(c) => GGeom::Circle(c.cx as int, c.cy as int, c.r as int),
        }
    }
}

impl View for OpacityShape {
    type V = GShape;

    open spec fn view(&self) -> GShape {
        GShape { geom: self.geometry@, opacity: self.opacity as int }
    }
}

/// The view of a whole shape list.
pub open spec fn shapes_view(s: Seq<OpacityShape>) -> Seq<GShape> {
    s.map_values(|x: OpacityShape| x@)
}

/// A scene-graph feature that is recognized but deliberately unsupported:
/// honoring it wrongly would silently change what the icon looks like.
#[derive(Clone, Copy, PartialEq, Eq, Structural, Debug)]
pub enum Feature {
    /// A group carrying an identifier attribute.
    GroupId,
    /// A group carrying a clip path.
    ClipPath,
    /// A group carrying a mask.
    Mask,
    /// A group carrying a filter effect.
    Filter,
    /// A circle under a transform that is not a uniform axis-aligned scale
    /// plus translation (anything else would turn the circle into an ellipse).
    CircleTransform,
}

/// The attribute name of a feature, as reported in errors.
pub open spec fn spec_feature_label(f: Feature) -> Seq<char> {
    match f {
        Feature::GroupId => "id"@,
        Feature::ClipPath => "clip-path"@,
        Feature::Mask => "mask"@,
        Feature::Filter => "filter"@,
        Feature::CircleTransform => "circle-transform"@,
    }
}

impl Feature {
    /// The attribute name of this feature, for error messages.
    pub fn label(&self) -> (r: String)
        ensures
            r@ == spec_feature_label(*self),
    {
        match self {
            Feature::GroupId => "id".to_owned(),
            Feature::ClipPath => "clip-path".to_owned(),
            Feature::Mask => "mask".to_owned(),
            Feature::Filter => "filter".to_owned(),
            Feature::CircleTransform => "circle-transform".to_owned(),
        }
    }
}

/// Why resolving one icon failed. Any of these aborts the whole build.
#[derive(Debug)]
pub enum ResolveError {
    /// The scene uses a recognized but unsupported feature.
    UnsupportedFeature(Feature),
    /// The scene holds a node kind outside the supported vocabulary; the
    /// payload names the kind.
    UnsupportedNode(String),
    /// A group's opacity lies outside `[0, 1]`.
    OpacityRange,
    /// A coordinate, radius or transform coefficient lies outside the
    /// supported range, before or after transformation.
    CoordinateRange,
}

/// Mathematical model of a resolution failure.
pub ghost enum GError {
    UnsupportedFeature(Feature),
    UnsupportedNode(Seq<char>),
    OpacityRange,
    CoordinateRange,
}

impl View for ResolveError {
    type V = GError;

    open spec fn view(&self) -> GError {
        match self {
            ResolveError::UnsupportedFeature(f) => GError::UnsupportedFeature(*f),
            ResolveError::UnsupportedNode(kind) => GError::UnsupportedNode(kind@),
            ResolveError::OpacityRange => GError::OpacityRange,
            ResolveError::CoordinateRange => GError::CoordinateRange,
        }
    }
}

/// Attributes of a group node. Presence flags stand for the attributes the
/// resolver must reject; the transform and opacity default to the identity
/// and to full opacity.
#[derive(Clone, Copy, PartialEq, Eq, Structural, Debug)]
pub struct GroupAttrs {
    pub has_id: bool,
    pub has_clip_path: bool,
    pub has_mask: bool,
    pub has_filter: bool,
    pub transform: Affine,
    /// Opacity multiplier in hundredths; valid values are `0..=100`.
    pub opacity: u32,
}

/// One node of the parsed scene graph.
pub enum SceneNode {
    /// A group: attributes plus child nodes in document order.
    Group(GroupAttrs, Vec<SceneNode>),
    /// A leaf path: visibility, fill presence, and its command sequence.
    PathLeaf { visible: bool, filled: bool, cmds: Vec<PathCmd> },
    /// A leaf circle: visibility, fill presence, and the circle.
    CircleLeaf { visible: bool, filled: bool, circle: Circle },
    /// Any other node kind, carried by name so the resolver can reject it.
    Other { kind: String },
}

/// One parsed icon document: whether its reusable-definitions block is
/// non-empty (reported as a warning, the build goes on), and the root's
/// children.
pub struct SceneDoc {
    pub defs_nonempty: bool,
    pub children: Vec<SceneNode>,
}

/// A point of a leaf, validated and carried through the whole transform
/// stack; `None` on any out-of-range value.
pub open spec fn flat_point_spec(ts: Seq<Affine>, x: int, y: int) -> Option<(int, int)> {
    if in_range(x) && in_range(y) {
        apply_stack_spec(ts, x, y)
    } else {
        None
    }
}

/// One path command carried through the transform stack.
pub open spec fn flat_cmd_spec(c: PathCmd, ts: Seq<Affine>) -> Option<GCmd> {
    match c {
        PathCmd::MoveTo(p) => match flat_point_spec(ts, p.x as int, p.y as int) {
            Some(q) => Some(GCmd::MoveTo(q.0, q.1)),
            None => None,
        },
        PathCmd::LineTo(p) => match flat_point_spec(ts, p.x as int, p.y as int) {
            Some(q) => Some(GCmd::LineTo(q.0, q.1)),
            None => None,
        },
        PathCmd::QuadTo(p1, p) => match (
            flat_point_spec(ts, p1.x as int, p1.y as int),
            flat_point_spec(ts, p.x as int, p.y as int),
        ) {
            (Some(q1), Some(q)) => Some(GCmd::QuadTo(q1.0, q1.1, q.0, q.1)),
            _ => None,
        },
        PathCmd::CurveTo(p1, p2, p) => match (
            flat_point_spec(ts, p1.x as int, p1.y as int),
            flat_point_spec(ts, p2.x as int, p2.y as int),
            flat_point_spec(ts, p.x as int, p.y as int),
        ) {
            (Some(q1), Some(q2), Some(q)) => Some(
                GCmd::CurveTo(q1.0, q1.1, q2.0, q2.1, q.0, q.1),
            ),
            _ => None,
        },
        PathCmd::Close => Some(GCmd::Close),
    }
}

/// A whole command sequence carried through the transform stack, in order.
pub open spec fn flat_cmds_spec(cmds: Seq<PathCmd>, ts: Seq<Affine>) -> Option<Seq<GCmd>>
    decreases cmds.len(),
{
    if cmds.len() == 0 {
        Some(Seq::<GCmd>::empty())
    } else {
        match flat_cmd_spec(cmds[0], ts) {
            None => None,
            Some(g) => match flat_cmds_spec(cmds.subrange(1, cmds.len() as int), ts) {
                None => None,
                Some(rest) => Some(seq![g] + rest),
            },
        }
    }
}

/// A circle's radius carried through the transform stack, innermost transform
/// first: each stack entry must be a uniform scale, which multiplies the
/// radius.
pub open spec fn flat_radius_spec(ts: Seq<Affine>, r: int) -> Result<int, GError>
    decreases ts.len(),
{
    if !(in_range(r) && r >= 0) {
        Err(GError::CoordinateRange)
    } else if ts.len() == 0 {
        Ok(r)
    } else {
        let t = ts.last();
        if !t.spec_uniform() {
            Err(GError::UnsupportedFeature(Feature::CircleTransform))
        } else {
            flat_radius_spec(ts.subrange(0, ts.len() - 1), round_div_100(t.a * r))
        }
    }
}

/// What one scene node contributes under an inherited transform stack and
/// opacity: its flat shape list in document order, or the first error.
pub open spec fn resolve_node_spec(node: SceneNode, ts: Seq<Affine>, op: int) -> Result<
    Seq<GShape>,
    GError,
> decreases node,
{
    match node {
        SceneNode::PathLeaf { visible, filled, cmds } => {
            if !visible || !filled {
                Ok(Seq::<GShape>::empty())
            } else {
                match flat_cmds_spec(cmds@, ts) {
                    None => Err(GError::CoordinateRange),
                    Some(gs) => Ok(seq![GShape { geom: GGeom::Path(gs), opacity: op }]),
                }
            }
        },
        SceneNode::CircleLeaf { visible, filled, circle } => {
            if !visible || !filled {
                Ok(Seq::<GShape>::empty())
            } else {
                match flat_point_spec(ts, circle.cx as int, circle.cy as int) {
                    None => Err(GError::CoordinateRange),
                    Some(q) => match flat_radius_spec(ts, circle.r as int) {
                        Err(e) => Err(e),
                        Ok(r2) => Ok(
                            seq![GShape { geom: GGeom::Circle(q.0, q.1, r2), opacity: op }],
                        ),
                    },
                }
            }
        },
        SceneNode::Group(attrs, children) => {
            if attrs.has_id {
                Err(GError::UnsupportedFeature(Feature::GroupId))
            } else if attrs.has_clip_path {
                Err(GError::UnsupportedFeature(Feature::ClipPath))
            } else if attrs.has_mask {
                Err(GError::UnsupportedFeature(Feature::Mask))
            } else if attrs.has_filter {
                Err(GError::UnsupportedFeature(Feature::Filter))
            } else if attrs.opacity > OPACITY_FULL {
                Err(GError::OpacityRange)
            } else if !attrs.transform.ok() {
                Err(GError::CoordinateRange)
            } else {
                resolve_kids_spec(
                    children@,
                    ts.push(attrs.transform),
                    opacity_mul(op, attrs.opacity as int),
                )
            }
        },
        SceneNode::Other { kind } => Err(GError::UnsupportedNode(kind@)),
    }
}

/// What a sequence of sibling nodes contributes, concatenated in document
/// order; the first failing node's error wins.
pub open spec fn resolve_kids_spec(kids: Seq<SceneNode>, ts: Seq<Affine>, op: int) -> Result<
    Seq<GShape>,
    GError,
> decreases kids,
{
    if kids.len() == 0 {
        Ok(Seq::<GShape>::empty())
    } else {
        match resolve_node_spec(kids[0], ts, op) {
            Err(e) => Err(e),
            Ok(first) => match resolve_kids_spec(kids.subrange(1, kids.len() as int), ts, op) {
                Err(e) => Err(e),
                Ok(rest) => Ok(first + rest),
            },
        }
    }
}

/// What one whole document resolves to: its root children under an empty
/// transform stack and full opacity.
pub open spec fn resolve_doc_spec(doc: SceneDoc) -> Result<Seq<GShape>, GError> {
    resolve_kids_spec(doc.children@, Seq::<Affine>::empty(), OPACITY_FULL as int)
}

/// Whether a flattened command came from a source command of the same kind.
pub open spec fn same_cmd_kind(c: PathCmd, g: GCmd) -> bool {
    match (c, g) {
        (PathCmd::MoveTo(_), GCmd::MoveTo(_, _)) => true,
        (PathCmd::LineTo(_), GCmd::LineTo(_, _)) => true,
        (PathCmd::QuadTo(_, _), GCmd::QuadTo(_, _, _, _)) => true,
        (PathCmd::CurveTo(_, _, _), GCmd::CurveTo(_, _, _, _, _, _)) => true,
        (PathCmd::Close, GCmd::Close) => true,
        _ => false,
    }
}

/// Flattening a path is one-to-one: the resolved command sequence has
/// exactly one command per source command, of the same kind, in the same
/// order — only coordinates change.
pub proof fn lemma_flatten_preserves_kinds(cmds: Seq<PathCmd>, ts: Seq<Affine>, out: Seq<GCmd>)
    requires
        flat_cmds_spec(cmds, ts) == Some(out),
    ensures
        out.len() == cmds.len(),
        forall|i: int| 0 <= i < cmds.len() ==> same_cmd_kind(#[trigger] cmds[i], out[i]),
    decreases cmds.len(),
{
    if cmds.len() > 0 {
        let tail = cmds.subrange(1, cmds.len() as int);
        match flat_cmd_spec(cmds[0], ts) {
            Some(g0) => match flat_cmds_spec(tail, ts) {
                Some(rest) => {
                    lemma_flatten_preserves_kinds(tail, ts, rest);
                    assert(out == seq![g0] + rest);
                    assert forall|i: int| 0 <= i < cmds.len() implies same_cmd_kind(
                        #[trigger] cmds[i],
                        out[i],
                    ) by {
                        if i > 0 {
                            assert(cmds[i] == tail[i - 1]);
                            assert(out[i] == rest[i - 1]);
                        }
                    }
                },
                None => {},
            },
            None => {},
        }
    }
}

/// A leaf path that is hidden, or has no fill paint, contributes no shape at
/// all, whatever geometry it holds.
pub proof fn lemma_invisible_path_dropped(
    visible: bool,
    filled: bool,
    cmds: Vec<PathCmd>,
    ts: Seq<Affine>,
    op: int,
)
    requires
        !visible || !filled,
    ensures
        resolve_node_spec(SceneNode::PathLeaf { visible, filled, cmds }, ts, op) == Ok::<
            Seq<GShape>,
            GError,
        >(Seq::<GShape>::empty()),
{
}

/// A leaf circle that is hidden, or has no fill paint, contributes no shape
/// at all, whatever geometry it holds.
pub proof fn lemma_invisible_circle_dropped(
    visible: bool,
    filled: bool,
    circle: Circle,
    ts: Seq<Affine>,
    op: int,
)
    requires
        !visible || !filled,
    ensures
        resolve_node_spec(SceneNode::CircleLeaf { visible, filled, circle }, ts, op) == Ok::<
            Seq<GShape>,
            GError,
        >(Seq::<GShape>::empty()),
{
}

/// Whether every coordinate of a flattened command is within the supported
/// range.
pub open spec fn gcmd_in_range(c: GCmd) -> bool {
    match c {
        GCmd::MoveTo(x, y) => in_range(x) && in_range(y),
        GCmd::LineTo(x, y) => in_range(x) && in_range(y),
        GCmd::QuadTo(x1, y1, x, y) => in_range(x1) && in_range(y1) && in_range(x) && in_range(y),
        GCmd::CurveTo(x1, y1, x2, y2, x, y) => in_range(x1) && in_range(y1) && in_range(x2)
            && in_range(y2) && in_range(x) && in_range(y),
        GCmd::Close => true,
    }
}

/// Whether a resolved shape is fit for the emitted table: its opacity is a
/// valid multiplier and all its geometry is within the supported range.
pub open spec fn gshape_valid(s: GShape) -> bool {
    &&& 0 <= s.opacity <= OPACITY_FULL as int
    &&& match s.geom {
        GGeom::Path(cs) => forall|i: int| 0 <= i < cs.len() ==> gcmd_in_range(#[trigger] cs[i]),
        GGeom::Circle(cx, cy, r) => in_range(cx) && in_range(cy) && 0 <= r && in_range(r),
    }
}

proof fn lemma_apply_stack_in_range(ts: Seq<Affine>, x: int, y: int, q: (int, int))
    requires
        in_range(x),
        in_range(y),
        apply_stack_spec(ts, x, y) == Some(q),
    ensures
        in_range(q.0) && in_range(q.1),
    decreases ts.len(),
{
    if ts.len() > 0 {
        let t = ts.last();
        let x1 = crate::geometry::apply_x(t, x, y);
        let y1 = crate::geometry::apply_y(t, x, y);
        lemma_apply_stack_in_range(ts.subrange(0, ts.len() - 1), x1, y1, q);
    }
}

proof fn lemma_flat_point_in_range(ts: Seq<Affine>, x: int, y: int, q: (int, int))
    requires
        flat_point_spec(ts, x, y) == Some(q),
    ensures
        in_range(q.0) && in_range(q.1),
{
    lemma_apply_stack_in_range(ts, x, y, q);
}

proof fn lemma_flat_cmds_in_range(cmds: Seq<PathCmd>, ts: Seq<Affine>, out: Seq<GCmd>)
    requires
        flat_cmds_spec(cmds, ts) == Some(out),
    ensures
        forall|i: int| 0 <= i < out.len() ==> gcmd_in_range(#[trigger] out[i]),
    decreases cmds.len(),
{
    if cmds.len() > 0 {
        let tail = cmds.subrange(1, cmds.len() as int);
        match flat_cmd_spec(cmds[0], ts) {
            Some(g0) => match flat_cmds_spec(tail, ts) {
                Some(rest) => {
                    lemma_flat_cmds_in_range(tail, ts, rest);
                    assert(gcmd_in_range(g0)) by {
                        match cmds[0] {
                            PathCmd::MoveTo(p) => {
                                let q = flat_point_spec(ts, p.x as int, p.y as int)->Some_0;
                                lemma_flat_point_in_range(ts, p.x as int, p.y as int, q);
                            },
                            PathCmd::LineTo(p) => {
                                let q = flat_point_spec(ts, p.x as int, p.y as int)->Some_0;
                                lemma_flat_point_in_range(ts, p.x as int, p.y as int, q);
                            },
                            PathCmd::QuadTo(p1, p) => {
                                let q1 = flat_point_spec(ts, p1.x as int, p1.y as int)->Some_0;
                                lemma_flat_point_in_range(ts, p1.x as int, p1.y as int, q1);
                                let q = flat_point_spec(ts, p.x as int, p.y as int)->Some_0;
                                lemma_flat_point_in_range(ts, p.x as int, p.y as int, q);
                            },
                            PathCmd::CurveTo(p1, p2, p) => {
                                let q1 = flat_point_spec(ts, p1.x as int, p1.y as int)->Some_0;
                                lemma_flat_point_in_range(ts, p1.x as int, p1.y as int, q1);
                                let q2 = flat_point_spec(ts, p2.x as int, p2.y as int)->Some_0;
                                lemma_flat_point_in_range(ts, p2.x as int, p2.y as int, q2);
                                let q = flat_point_spec(ts, p.x as int, p.y as int)->Some_0;
                                lemma_flat_point_in_range(ts, p.x as int, p.y as int, q);
                            },
                            PathCmd::Close => {},
                        }
                    }
                    assert(out == seq![g0] + rest);
                    assert forall|i: int| 0 <= i < out.len() implies gcmd_in_range(
                        #[trigger] out[i],
                    ) by {
                        if i > 0 {
                            assert(out[i] == rest[i - 1]);
                        }
                    }
                },
                None => {},
            },
            None => {},
        }
    }
}

proof fn lemma_flat_radius_in_range(ts: Seq<Affine>, r: int, r2: int)
    requires
        flat_radius_spec(ts, r) == Ok::<int, GError>(r2),
    ensures
        0 <= r2 && in_range(r2),
    decreases ts.len(),
{
    if in_range(r) && r >= 0 && ts.len() > 0 {
        let t = ts.last();
        if t.spec_uniform() {
            lemma_flat_radius_in_range(ts.subrange(0, ts.len() - 1), round_div_100(t.a * r), r2);
        }
    }
}

proof fn lemma_opacity_mul_range(a: int, b: int)
    requires
        0 <= a <= OPACITY_FULL as int,
        0 <= b <= OPACITY_FULL as int,
    ensures
        0 <= opacity_mul(a, b) <= OPACITY_FULL as int,
{
    assert(0 <= (a * b + 50) / 100 <= a) by (nonlinear_arith)
        requires
            0 <= a <= 100,
            0 <= b <= 100,
    {}
}

proof fn lemma_resolved_node_shapes_valid(node: SceneNode, ts: Seq<Affine>, op: int)
    requires
        0 <= op <= OPACITY_FULL as int,
    ensures
        resolve_node_spec(node, ts, op) matches Ok(shapes) ==> forall|i: int|
            0 <= i < shapes.len() ==> gshape_valid(#[trigger] shapes[i]),
    decreases node,
{
    match node {
        SceneNode::PathLeaf { visible, filled, cmds } => {
            if visible && filled {
                match flat_cmds_spec(cmds@, ts) {
                    Some(gs) => {
                        lemma_flat_cmds_in_range(cmds@, ts, gs);
                    },
                    None => {},
                }
            }
        },
        SceneNode::CircleLeaf { visible, filled, circle } => {
            if visible && filled {
                match flat_point_spec(ts, circle.cx as int, circle.cy as int) {
                    Some(q) => {
                        lemma_flat_point_in_range(ts, circle.cx as int, circle.cy as int, q);
                        match flat_radius_spec(ts, circle.r as int) {
                            Ok(r2) => {
                                lemma_flat_radius_in_range(ts, circle.r as int, r2);
                            },
                            Err(_) => {},
                        }
                    },
                    None => {},
                }
            }
        },
        SceneNode::Group(attrs, children) => {
            if !attrs.has_id && !attrs.has_clip_path && !attrs.has_mask && !attrs.has_filter
                && attrs.opacity <= OPACITY_FULL && attrs.transform.ok() {
                lemma_opacity_mul_range(op, attrs.opacity as int);
                lemma_resolved_kids_shapes_valid(
                    children@,
                    ts.push(attrs.transform),
                    opacity_mul(op, attrs.opacity as int),
                );
            }
        },
        SceneNode::Other { .. } => {},
    }
}

proof fn lemma_resolved_kids_shapes_valid(kids: Seq<SceneNode>, ts: Seq<Affine>, op: int)
    requires
        0 <= op <= OPACITY_FULL as int,
    ensures
        resolve_kids_spec(kids, ts, op) matches Ok(shapes) ==> forall|i: int|
            0 <= i < shapes.len() ==> gshape_valid(#[trigger] shapes[i]),
    decreases kids,
{
    if kids.len() > 0 {
        lemma_resolved_node_shapes_valid(kids[0], ts, op);
        lemma_resolved_kids_shapes_valid(kids.subrange(1, kids.len() as int), ts, op);
        match resolve_node_spec(kids[0], ts, op) {
            Ok(first) => match resolve_kids_spec(kids.subrange(1, kids.len() as int), ts, op) {
                Ok(rest) => {
                    assert forall|i: int| 0 <= i < (first + rest).len() implies gshape_valid(
                        #[trigger] (first + rest)[i],
                    ) by {
                        if i < first.len() {
                            assert((first + rest)[i] == first[i]);
                        } else {
                            assert((first + rest)[i] == rest[i - first.len()]);
                        }
                    }
                },
                Err(_) => {},
            },
            Err(_) => {},
        }
    }
}

/// Whether a group's attributes pass validation: none of the rejected
/// features, a valid opacity multiplier, and an in-range transform.
pub open spec fn group_attrs_pass(a: GroupAttrs) -> bool {
    &&& !a.has_id
    &&& !a.has_clip_path
    &&& !a.has_mask
    &&& !a.has_filter
    &&& a.opacity <= OPACITY_FULL
    &&& a.transform.ok()
}

/// Opacity composition, as a law: content nested inside two groups resolves
/// under the product of the two opacity multipliers folded into the
/// inherited one, and under both transforms pushed in nesting order — the
/// inner opacity neither replaces nor adds to the outer one.
pub proof fn lemma_opacity_composes(
    outer: GroupAttrs,
    inner_attrs: GroupAttrs,
    content: Vec<SceneNode>,
    mid: Vec<SceneNode>,
    ts: Seq<Affine>,
    op: int,
)
    requires
        group_attrs_pass(outer),
        group_attrs_pass(inner_attrs),
        mid@ == seq![SceneNode::Group(inner_attrs, content)],
    ensures
        resolve_node_spec(SceneNode::Group(outer, mid), ts, op) == resolve_kids_spec(
            content@,
            ts.push(outer.transform).push(inner_attrs.transform),
            opacity_mul(opacity_mul(op, outer.opacity as int), inner_attrs.opacity as int),
        ),
{
    let ts1 = ts.push(outer.transform);
    let op1 = opacity_mul(op, outer.opacity as int);
    let ts2 = ts1.push(inner_attrs.transform);
    let op2 = opacity_mul(op1, inner_attrs.opacity as int);
    assert(resolve_node_spec(SceneNode::Group(outer, mid), ts, op) == resolve_kids_spec(
        mid@,
        ts1,
        op1,
    ));
    assert(mid@[0] == SceneNode::Group(inner_attrs, content));
    assert(mid@.subrange(1, mid@.len() as int) =~= Seq::<SceneNode>::empty());
    assert(resolve_node_spec(SceneNode::Group(inner_attrs, content), ts1, op1)
        == resolve_kids_spec(content@, ts2, op2));
    assert(resolve_kids_spec(Seq::<SceneNode>::empty(), ts1, op1) == Ok::<Seq<GShape>, GError>(
        Seq::<GShape>::empty(),
    ));
    match resolve_kids_spec(content@, ts2, op2) {
        Ok(first) => {
            assert(resolve_kids_spec(mid@, ts1, op1) == Ok::<Seq<GShape>, GError>(
                first + Seq::<GShape>::empty(),
            ));
            assert(first + Seq::<GShape>::empty() =~= first);
        },
        Err(e) => {
            assert(resolve_kids_spec(mid@, ts1, op1) == Err::<Seq<GShape>, GError>(e));
        },
    }
}

/// The emitted-table contract on shapes, as a law: every shape a document
/// resolves to carries an opacity multiplier within `[0, 1]`, and all its
/// flattened geometry lies within the supported coordinate range.
pub proof fn lemma_resolved_doc_shapes_valid(doc: SceneDoc)
    ensures
        resolve_doc_spec(doc) matches Ok(shapes) ==> forall|i: int|
            0 <= i < shapes.len() ==> gshape_valid(#[trigger] shapes[i]),
{
    lemma_resolved_kids_shapes_valid(doc.children@, Seq::<Affine>::empty(), OPACITY_FULL as int);
}

/// Copies a transform stack (groups extend a copy, so sibling branches can
/// never contaminate each other).
fn clone_stack(ts: &Vec<Affine>) -> (r: Vec<Affine>)
    ensures
        r@ == ts@,
{
    let mut r: Vec<Affine> = Vec::new();
    let mut i: usize = 0;
    while i < ts.len()
        invariant
            0 <= i <= ts.len(),
            r@ == ts@.subrange(0, i as int),
        decreases ts.len() - i,
    {
        r.push(ts[i]);
        i = i + 1;
        proof {
            assert(r@ =~= ts@.subrange(0, i as int));
        }
    }
    proof {
        assert(ts@.subrange(0, ts@.len() as int) =~= ts@);
    }
    r
}

/// Applies the transform stack to one point of a leaf, after checking the
/// leaf's own coordinates are in range.
fn flat_point(ts: &Vec<Affine>, p: Point) -> (r: Option<Point>)
    requires
        stack_ok(ts@),
    ensures
        match r {
            Some(q) => flat_point_spec(ts@, p.x as int, p.y as int) == Some(
                (q.x as int, q.y as int),
            ),
            None => flat_point_spec(ts@, p.x as int, p.y as int) is None,
        },
{
    if -COORD_LIMIT <= p.x && p.x <= COORD_LIMIT && -COORD_LIMIT <= p.y && p.y <= COORD_LIMIT {
        apply_stack(ts, p.x, p.y)
    } else {
        None
    }
}

/// Carries one path command through the transform stack.
fn flat_cmd(ts: &Vec<Affine>, c: &PathCmd) -> (r: Option<PathCmd>)
    requires
        stack_ok(ts@),
    ensures
        match r {
            Some(c2) => flat_cmd_spec(*c, ts@) == Some(c2@),
            None => flat_cmd_spec(*c, ts@) is None,
        },
{
    match c {
        PathCmd::MoveTo(p) => match flat_point(ts, *p) {
            Some(q) => Some(PathCmd::MoveTo(q)),
            None => None,
        },
        PathCmd::LineTo(p) => match flat_point(ts, *p) {
            Some(q) => Some(PathCmd::LineTo(q)),
            None => None,
        },
        PathCmd::QuadTo(p1, p) => match (flat_point(ts, *p1), flat_point(ts, *p)) {
            (Some(q1), Some(q)) => Some(PathCmd::QuadTo(q1, q)),
            _ => None,
        },
        PathCmd::CurveTo(p1, p2, p) => match (
            flat_point(ts, *p1),
            flat_point(ts, *p2),
            flat_point(ts, *p),
        ) {
            (Some(q1), Some(q2), Some(q)) => Some(PathCmd::CurveTo(q1, q2, q)),
            _ => None,
        },
        PathCmd::Close => Some(PathCmd::Close),
    }
}

/// Carries a whole command sequence through the transform stack.
fn flat_cmds(ts: &Vec<Affine>, cmds: &Vec<PathCmd>) -> (r: Option<Vec<PathCmd>>)
    requires
        stack_ok(ts@),
    ensures
        match r {
            Some(out) => flat_cmds_spec(cmds@, ts@) == Some(out@.map_values(|c: PathCmd| c@)),
            None => flat_cmds_spec(cmds@, ts@) is None,
        },
{
    let mut out: Vec<PathCmd> = Vec::new();
    let mut i: usize = 0;
    proof {
        assert(cmds@.subrange(0, cmds@.len() as int) =~= cmds@);
    }
    while i < cmds.len()
        invariant
            0 <= i <= cmds.len(),
            stack_ok(ts@),
            out@.len() == i,
            flat_cmds_spec(cmds@, ts@) == match flat_cmds_spec(
                cmds@.subrange(i as int, cmds@.len() as int),
                ts@,
            ) {
                None => None::<Seq<GCmd>>,
                Some(rest) => Some(out@.map_values(|c: PathCmd| c@) + rest),
            },
        decreases cmds.len() - i,
    {
        let ghost pre = out@;
        let ghost remaining = cmds@.subrange(i as int, cmds@.len() as int);
        proof {
            assert(remaining[0] == cmds@[i as int]);
            assert(remaining.subrange(1, remaining.len() as int) =~= cmds@.subrange(
                i as int + 1,
                cmds@.len() as int,
            ));
        }
        match flat_cmd(ts, &cmds[i]) {
            Some(c2) => {
                out.push(c2);
                proof {
                    assert(out@.map_values(|c: PathCmd| c@) =~= pre.map_values(|c: PathCmd| c@)
                        + seq![c2@]);
                    assert(forall|rest: Seq<GCmd>|
                        (pre.map_values(|c: PathCmd| c@) + seq![c2@]) + rest =~= pre.map_values(
                            |c: PathCmd| c@,
                        ) + (seq![c2@] + rest));
                }
                i = i + 1;
            },
            None => {
                return None;
            },
        }
    }
    proof {
        assert(cmds@.subrange(cmds@.len() as int, cmds@.len() as int) =~= Seq::<
            PathCmd,
        >::empty());
        assert(out@.map_values(|c: PathCmd| c@) + Seq::<GCmd>::empty() =~= out@.map_values(
            |c: PathCmd| c@,
        ));
    }
    Some(out)
}

/// Carries a circle's radius through the transform stack.
fn flat_radius(ts: &Vec<Affine>, r: i64) -> (res: Result<i64, ResolveError>)
    requires
        stack_ok(ts@),
    ensures
        match res {
            Ok(r2) => flat_radius_spec(ts@, r as int) == Ok::<int, GError>(r2 as int) && in_range(
                r2 as int,
            ) && r2 >= 0,
            Err(e) => flat_radius_spec(ts@, r as int) == Err::<int, GError>(e@),
        },
{
    if !(0 <= r && r <= COORD_LIMIT) {
        return Err(ResolveError::CoordinateRange);
    }
    let mut i: usize = ts.len();
    let mut cr: i64 = r;
    proof {
        assert(ts@.subrange(0, ts@.len() as int) =~= ts@);
    }
    while i > 0
        invariant
            0 <= i <= ts.len(),
            stack_ok(ts@),
            0 <= cr <= COORD_LIMIT,
            flat_radius_spec(ts@, r as int) == flat_radius_spec(
                ts@.subrange(0, i as int),
                cr as int,
            ),
        decreases i,
    {
        let t = ts[i - 1];
        proof {
            assert(ts@.subrange(0, i as int).last() == ts@[i - 1]);
            assert(ts@.subrange(0, i as int).subrange(0, i - 1) =~= ts@.subrange(0, i - 1));
        }
        if !t.uniform() {
            return Err(ResolveError::UnsupportedFeature(Feature::CircleTransform));
        }
        proof {
            assert(0 <= t.a * cr <= RAW_LIMIT as int) by (nonlinear_arith)
                requires
                    0 < t.a <= COORD_LIMIT as int,
                    0 <= cr <= COORD_LIMIT as int,
            {}
        }
        let raw: i64 = t.a * cr;
        let m: u64 = raw as u64;
        let q: u64 = (m + 50) / 100;
        let next: i64 = q as i64;
        proof {
            assert(raw as int == t.a * cr);
            assert(m as int == raw as int);
            assert(q as int == (raw as int + 50) / 100);
            assert(next as int == round_div_100(t.a * cr));
            assert(next >= 0);
        }
        if next > COORD_LIMIT {
            proof {
                assert(flat_radius_spec(ts@.subrange(0, i as int), cr as int) == flat_radius_spec(
                    ts@.subrange(0, i - 1),
                    next as int,
                ));
                assert(flat_radius_spec(ts@.subrange(0, i - 1), next as int) == Err::<
                    int,
                    GError,
                >(GError::CoordinateRange));
            }
            return Err(ResolveError::CoordinateRange);
        }
        cr = next;
        i = i - 1;
    }
    proof {
        assert(ts@.subrange(0, 0) =~= Seq::<Affine>::empty());
    }
    Ok(cr)
}

/// Resolves one node under the inherited transform stack and opacity,
/// appending its shapes to `out` in document order. On an error, `out` may
/// hold shapes of earlier siblings; the caller discards it.
fn resolve_node(node: &SceneNode, ts: &Vec<Affine>, op: u32, out: &mut Vec<OpacityShape>) -> (r:
    Result<(), ResolveError>)
    requires
        stack_ok(ts@),
        op <= OPACITY_FULL,
    ensures
        match r {
            Ok(_) => resolve_node_spec(*node, ts@, op as int) matches Ok(gs) && shapes_view(
                final(out)@,
            ) == shapes_view(old(out)@) + gs,
            Err(e) => resolve_node_spec(*node, ts@, op as int) == Err::<Seq<GShape>, GError>(e@),
        },
    decreases *node,
{
    match node {
        SceneNode::PathLeaf { visible, filled, cmds } => {
            if !*visible || !*filled {
                proof {
                    assert(shapes_view(out@) =~= shapes_view(old(out)@) + Seq::<GShape>::empty());
                }
                Ok(())
            } else {
                match flat_cmds(ts, cmds) {
                    None => Err(ResolveError::CoordinateRange),
                    Some(flat) => {
                        let ghost pre = out@;
                        let shape = OpacityShape { geometry: Geometry::Path(flat), opacity: op };
                        let ghost gshape = shape@;
                        out.push(shape);
                        proof {
                            assert(shapes_view(out@) =~= shapes_view(pre) + seq![gshape]);
                        }
                        Ok(())
                    },
                }
            }
        },
        SceneNode::CircleLeaf { visible, filled, circle } => {
            if !*visible || !*filled {
                proof {
                    assert(shapes_view(out@) =~= shapes_view(old(out)@) + Seq::<GShape>::empty());
                }
                Ok(())
            } else {
                match flat_point(ts, Point { x: circle.cx, y: circle.cy }) {
                    None => Err(ResolveError::CoordinateRange),
                    Some(q) => match flat_radius(ts, circle.r) {
                        Err(e) => Err(e),
                        Ok(r2) => {
                            let ghost pre = out@;
                            let shape = OpacityShape {
                                geometry: Geometry::Circle(Circle { cx: q.x, cy: q.y, r: r2 }),
                                opacity: op,
                            };
                            let ghost gshape = shape@;
                            out.push(shape);
                            proof {
                                assert(shapes_view(out@) =~= shapes_view(pre) + seq![gshape]);
                            }
                            Ok(())
                        },
                    },
                }
            }
        },
        SceneNode::Group(attrs, children) => {
            if attrs.has_id {
                Err(ResolveError::UnsupportedFeature(Feature::GroupId))
            } else if attrs.has_clip_path {
                Err(ResolveError::UnsupportedFeature(Feature::ClipPath))
            } else if attrs.has_mask {
                Err(ResolveError::UnsupportedFeature(Feature::Mask))
            } else if attrs.has_filter {
                Err(ResolveError::UnsupportedFeature(Feature::Filter))
            } else if attrs.opacity > OPACITY_FULL {
                Err(ResolveError::OpacityRange)
            } else if !attrs.transform.check_ok() {
                Err(ResolveError::CoordinateRange)
            } else {
                let child_op = mul_opacity(op, attrs.opacity);
                let mut ts2 = clone_stack(ts);
                ts2.push(attrs.transform);
                proof {
                    assert(ts2@ =~= ts@.push(attrs.transform));
                    assert(decreases_to!(*node => *children));
                }
                resolve_kids(children, &ts2, child_op, out)
            }
        },
        SceneNode::Other { kind } => Err(ResolveError::UnsupportedNode(kind.clone())),
    }
}

/// Resolves a sequence of sibling nodes, appending their shapes to `out` in
/// document order.
fn resolve_kids(kids: &Vec<SceneNode>, ts: &Vec<Affine>, op: u32, out: &mut Vec<OpacityShape>) -> (
    r: Result<(), ResolveError>)
    requires
        stack_ok(ts@),
        op <= OPACITY_FULL,
    ensures
        match r {
            Ok(_) => resolve_kids_spec(kids@, ts@, op as int) matches Ok(gs) && shapes_view(
                final(out)@,
            ) == shapes_view(old(out)@) + gs,
            Err(e) => resolve_kids_spec(kids@, ts@, op as int) == Err::<Seq<GShape>, GError>(e@),
        },
    decreases kids@,
{
    let ghost base = shapes_view(out@);
    let ghost mut done: Seq<GShape> = Seq::<GShape>::empty();
    let mut j: usize = 0;
    proof {
        assert(kids@.subrange(0, kids@.len() as int) =~= kids@);
        assert(shapes_view(out@) =~= base + done);
    }
    while j < kids.len()
        invariant
            0 <= j <= kids.len(),
            stack_ok(ts@),
            op <= OPACITY_FULL,
            shapes_view(out@) == base + done,
            resolve_kids_spec(kids@, ts@, op as int) == match resolve_kids_spec(
                kids@.subrange(j as int, kids@.len() as int),
                ts@,
                op as int,
            ) {
                Err(e) => Err::<Seq<GShape>, GError>(e),
                Ok(rest) => Ok::<Seq<GShape>, GError>(done + rest),
            },
        decreases kids@.len() - j,
    {
        let ghost head = kids@.subrange(j as int, kids@.len() as int);
        let ghost tail = kids@.subrange(j as int + 1, kids@.len() as int);
        proof {
            assert(head[0] == kids@[j as int]);
            assert(head.subrange(1, head.len() as int) =~= tail);
            assert(decreases_to!(kids@ => kids@[j as int]));
        }
        let ghost pre = shapes_view(out@);
        match resolve_node(&kids[j], ts, op, out) {
            Ok(_) => {
                let ghost gs = choose|gs: Seq<GShape>|
                    resolve_node_spec(kids@[j as int], ts@, op as int) == Ok::<
                        Seq<GShape>,
                        GError,
                    >(gs) && shapes_view(out@) == pre + gs;
                proof {
                    assert(shapes_view(out@) =~= (base + done) + gs);
                    assert((base + done) + gs =~= base + (done + gs));
                    match resolve_kids_spec(tail, ts@, op as int) {
                        Ok(rest) => {
                            assert((done + gs) + rest =~= done + (gs + rest));
                        },
                        Err(_) => {},
                    }
                    done = done + gs;
                }
                j = j + 1;
            },
            Err(e) => {
                return Err(e);
            },
        }
    }
    proof {
        assert(kids@.subrange(kids@.len() as int, kids@.len() as int) =~= Seq::<
            SceneNode,
        >::empty());
        assert(done + Seq::<GShape>::empty() =~= done);
    }
    Ok(())
}

/// Resolves one whole parsed document into its flat shape list, in document
/// draw order. A non-empty reusable-definitions block does not fail the
/// build; the caller reads `defs_nonempty` and reports a warning.
pub fn resolve_doc(doc: &SceneDoc) -> (r: Result<Vec<OpacityShape>, ResolveError>)
    ensures
        match r {
            Ok(shapes) => resolve_doc_spec(*doc) == Ok::<Seq<GShape>, GError>(
                shapes_view(shapes@),
            ),
            Err(e) => resolve_doc_spec(*doc) == Err::<Seq<GShape>, GError>(e@),
        },
{
    let ts: Vec<Affine> = Vec::new();
    let mut out: Vec<OpacityShape> = Vec::new();
    proof {
        assert(shapes_view(Seq::<OpacityShape>::empty()) =~= Seq::<GShape>::empty());
    }
    match resolve_kids(&doc.children, &ts, OPACITY_FULL, &mut out) {
        Ok(_) => {
            proof {
                assert(shapes_view(out@) =~= Seq::<GShape>::empty() + shapes_view(out@));
            }
            Ok(out)
        },
        Err(e) => Err(e),
    }
}

} // verus!
