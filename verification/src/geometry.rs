//! Fixed-point geometry primitives.
//!
//! Every coordinate, transform coefficient and opacity is stored in
//! hundredths: the `i64` value `150` stands for `1.50`. This matches the
//! two-decimal precision of the emitted table exactly, so the whole pipeline
//! is exact integer arithmetic with one well-defined rounding (half away from
//! zero) per multiplication.
use vstd::prelude::*;

verus! {

/// Largest magnitude a stored coordinate or transform coefficient may have,
/// in hundredths (one million units). Values beyond it are rejected rather
/// than silently wrapped.
pub const COORD_LIMIT: i64 = 100_000_000;

/// Bound on the raw products fed to `round_div_100`: two products of
/// `COORD_LIMIT`-bounded factors always fit below it.
pub const RAW_LIMIT: i64 = 40_000_000_000_000_000;

/// A full opacity, in hundredths.
pub const OPACITY_FULL: u32 = 100;

/// Whether a fixed-point value is within the supported coordinate range.
pub open spec fn in_range(v: int) -> bool {
    -(COORD_LIMIT as int) <= v && v <= COORD_LIMIT as int
}

/// Division by 100 rounding half away from zero: the one rounding step of the
/// fixed-point model.
pub open spec fn round_div_100(n: int) -> int {
    if n >= 0 {
        (n + 50) / 100
    } else {
        -(((-n) + 50) / 100)
    }
}

/// A point in hundredths of a unit.
#[derive(Clone, Copy, PartialEq, Eq, Structural, Debug)]
pub struct Point {
    pub x: i64,
    pub y: i64,
}

/// An affine transform in hundredths; it maps `(x, y)` to
/// `(a*x + c*y + e, b*x + d*y + f)` (with the fixed-point rounding applied to
/// the coefficient products).
#[derive(Clone, Copy, PartialEq, Eq, Structural, Debug)]
pub struct Affine {
    pub a: i64,
    pub b: i64,
    pub c: i64,
    pub d: i64,
    pub e: i64,
    pub f: i64,
}

impl Affine {
    /// The identity transform.
    pub fn identity() -> (r: Affine)
        ensures
            r == (Affine { a: 100, b: 0, c: 0, d: 100, e: 0, f: 0 }),
    {
        Affine { a: 100, b: 0, c: 0, d: 100, e: 0, f: 0 }
    }

    /// Whether every coefficient is within the supported range.
    pub open spec fn ok(self) -> bool {
        &&& in_range(self.a as int)
        &&& in_range(self.b as int)
        &&& in_range(self.c as int)
        &&& in_range(self.d as int)
        &&& in_range(self.e as int)
        &&& in_range(self.f as int)
    }

    /// Whether the transform is a translation combined with a positive
    /// uniform axis-aligned scale; only such transforms keep a circle a
    /// circle.
    pub open spec fn spec_uniform(self) -> bool {
        self.b == 0 && self.c == 0 && self.a == self.d && self.a > 0
    }

    /// Run-time check for `ok`.
    pub fn check_ok(&self) -> (r: bool)
        ensures
            r == self.ok(),
    {
        -COORD_LIMIT <= self.a && self.a <= COORD_LIMIT && -COORD_LIMIT <= self.b && self.b
            <= COORD_LIMIT && -COORD_LIMIT <= self.c && self.c <= COORD_LIMIT && -COORD_LIMIT
            <= self.d && self.d <= COORD_LIMIT && -COORD_LIMIT <= self.e && self.e <= COORD_LIMIT
            && -COORD_LIMIT <= self.f && self.f <= COORD_LIMIT
    }

    /// Run-time check for `spec_uniform`.
    pub fn uniform(&self) -> (r: bool)
        ensures
            r == self.spec_uniform(),
    {
        self.b == 0 && self.c == 0 && self.a == self.d && self.a > 0
    }
}

/// The x coordinate of a transformed point, before any range check.
pub open spec fn apply_x(t: Affine, x: int, y: int) -> int {
    round_div_100(t.a * x + t.c * y) + t.e
}

/// The y coordinate of a transformed point, before any range check.
pub open spec fn apply_y(t: Affine, x: int, y: int) -> int {
    round_div_100(t.b * x + t.d * y) + t.f
}

/// `round_div_100` on machine integers.
fn round_div_100_i64(n: i64) -> (r: i64)
    requires
        -(RAW_LIMIT as int) <= n as int <= RAW_LIMIT as int,
    ensures
        r as int == round_div_100(n as int),
{
    if n >= 0 {
        let m: u64 = n as u64;
        let q: u64 = (m + 50) / 100;
        q as i64
    } else {
        let m: u64 = (-n) as u64;
        let q: u64 = (m + 50) / 100;
        -(q as i64)
    }
}

/// Applies one transform to one point; `None` means the result left the
/// supported coordinate range.
pub fn apply_point(t: &Affine, x: i64, y: i64) -> (r: Option<Point>)
    requires
        t.ok(),
        in_range(x as int),
        in_range(y as int),
    ensures
        ({
            let rx = apply_x(*t, x as int, y as int);
            let ry = apply_y(*t, x as int, y as int);
            match r {
                Some(p) => in_range(rx) && in_range(ry) && p.x as int == rx && p.y as int == ry,
                None => !(in_range(rx) && in_range(ry)),
            }
        }),
{
    proof {
        assert(-(RAW_LIMIT as int) / 2 <= t.a * x <= RAW_LIMIT as int / 2 && -(RAW_LIMIT as int)
            / 2 <= t.c * y <= RAW_LIMIT as int / 2) by (nonlinear_arith)
            requires
                in_range(t.a as int),
                in_range(t.c as int),
                in_range(x as int),
                in_range(y as int),
        {}
        assert(-(RAW_LIMIT as int) / 2 <= t.b * x <= RAW_LIMIT as int / 2 && -(RAW_LIMIT as int)
            / 2 <= t.d * y <= RAW_LIMIT as int / 2) by (nonlinear_arith)
            requires
                in_range(t.b as int),
                in_range(t.d as int),
                in_range(x as int),
                in_range(y as int),
        {}
    }
    let px: i64 = t.a * x + t.c * y;
    let py: i64 = t.b * x + t.d * y;
    let rx: i64 = round_div_100_i64(px) + t.e;
    let ry: i64 = round_div_100_i64(py) + t.f;
    if -COORD_LIMIT <= rx && rx <= COORD_LIMIT && -COORD_LIMIT <= ry && ry <= COORD_LIMIT {
        Some(Point { x: rx, y: ry })
    } else {
        None
    }
}

/// A transform stack applied to a point, innermost (last) transform first;
/// `None` as soon as an intermediate point leaves the supported range.
pub open spec fn apply_stack_spec(ts: Seq<Affine>, x: int, y: int) -> Option<(int, int)>
    decreases ts.len(),
{
    if ts.len() == 0 {
        Some((x, y))
    } else {
        let t = ts.last();
        let x1 = apply_x(t, x, y);
        let y1 = apply_y(t, x, y);
        if in_range(x1) && in_range(y1) {
            apply_stack_spec(ts.subrange(0, ts.len() - 1), x1, y1)
        } else {
            None
        }
    }
}

/// Whether every transform on a stack has in-range coefficients.
pub open spec fn stack_ok(ts: Seq<Affine>) -> bool {
    forall|i: int| 0 <= i < ts.len() ==> (#[trigger] ts[i]).ok()
}

/// Applies the whole transform stack to one point, innermost transform first.
pub fn apply_stack(ts: &Vec<Affine>, x: i64, y: i64) -> (r: Option<Point>)
    requires
        stack_ok(ts@),
        in_range(x as int),
        in_range(y as int),
    ensures
        match r {
            Some(p) => apply_stack_spec(ts@, x as int, y as int) == Some(
                (p.x as int, p.y as int),
            ) && in_range(p.x as int) && in_range(p.y as int),
            None => apply_stack_spec(ts@, x as int, y as int) is None,
        },
{
    let mut i: usize = ts.len();
    let mut cx: i64 = x;
    let mut cy: i64 = y;
    proof {
        assert(ts@.subrange(0, ts@.len() as int) =~= ts@);
    }
    while i > 0
        invariant
            0 <= i <= ts.len(),
            stack_ok(ts@),
            in_range(cx as int),
            in_range(cy as int),
            apply_stack_spec(ts@, x as int, y as int) == apply_stack_spec(
                ts@.subrange(0, i as int),
                cx as int,
                cy as int,
            ),
        decreases i,
    {
        let t = ts[i - 1];
        proof {
            assert(ts@.subrange(0, i as int).last() == ts@[i - 1]);
            assert(ts@.subrange(0, i as int).subrange(0, i - 1) =~= ts@.subrange(0, i - 1));
        }
        match apply_point(&t, cx, cy) {
            Some(p) => {
                cx = p.x;
                cy = p.y;
                i = i - 1;
            },
            None => {
                return None;
            },
        }
    }
    proof {
        assert(ts@.subrange(0, 0) =~= Seq::<Affine>::empty());
    }
    Some(Point { x: cx, y: cy })
}

/// Transform composition, as a law: pushing a group's transform onto the
/// stack means it is applied to a leaf point first, and the ancestors'
/// transforms after it — a point's final position is the root transform of
/// the innermost group's image of the point.
pub proof fn lemma_transform_composes(ts: Seq<Affine>, t: Affine, x: int, y: int)
    ensures
        apply_stack_spec(ts.push(t), x, y) == ({
            let x1 = apply_x(t, x, y);
            let y1 = apply_y(t, x, y);
            if in_range(x1) && in_range(y1) {
                apply_stack_spec(ts, x1, y1)
            } else {
                None
            }
        }),
{
    assert(ts.push(t).last() == t);
    assert(ts.push(t).subrange(0, ts.push(t).len() - 1) =~= ts);
}

/// One opacity multiplied into another, in hundredths with rounding half up.
pub open spec fn opacity_mul(a: int, b: int) -> int {
    (a * b + 50) / 100
}

/// Multiplies two opacities; the result of two valid opacities is again a
/// valid opacity.
pub fn mul_opacity(a: u32, b: u32) -> (r: u32)
    requires
        a <= OPACITY_FULL,
        b <= OPACITY_FULL,
    ensures
        r as int == opacity_mul(a as int, b as int),
        r <= OPACITY_FULL,
{
    proof {
        assert(a * b <= 100 * 100) by (nonlinear_arith)
            requires
                a <= 100,
                b <= 100,
        {}
        assert((a * b + 50) / 100 <= a) by (nonlinear_arith)
            requires
                a <= 100,
                b <= 100,
        {}
    }
    (a * b + 50) / 100
}

} // verus!
