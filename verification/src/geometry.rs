//! Coordinates, shapes and the rotation/reflection variant generator.
//!
//! A `Point` is a 2D integer grid coordinate. A `Shape` is a list of point
//! offsets relative to an anchor together with attributes that say which
//! rotations apply and whether the mirrored copy is also used. `variants`
//! expands a shape into the full combinatorial list of transformed point
//! sets that the solver will attempt, in a fixed, reproducible order.

use vstd::prelude::*;

verus! {

/// A 2D grid coordinate.
#[derive(Debug, Hash, Eq, PartialEq, Copy, Clone, Structural)]
pub struct Point {
    pub x: i16,
    pub y: i16,
}

/// A point together with the text label found at that point.
#[derive(Debug)]
pub struct LabeledPoint {
    pub label: String,
    pub point: Point,
}

pub type LabeledPoints = Vec<LabeledPoint>;

/// How a base shape may be transformed: `rotations` counts the additional
/// quarter turns applied after the identity (0, 1 or 3), and `chiral` says
/// whether the mirrored copy of the shape runs through the same rotations.
#[derive(Debug, Clone, Copy)]
pub struct ShapeAttrs {
    pub chiral: bool,
    pub rotations: u8,
}

/// A shape drawn as rows of text, before conversion to points.
#[derive(Debug)]
pub struct VisualShape {
    pub points: Vec<String>,
    pub attrs: ShapeAttrs,
}

/// A shape as a list of point offsets plus its transform attributes.
#[derive(Debug, Clone)]
pub struct Shape {
    pub points: Vec<Point>,
    pub attrs: ShapeAttrs,
}

/// Both coordinates can be negated without leaving `i16`.
pub open spec fn coords_in_range(p: Point) -> bool {
    p.x > i16::MIN && p.y > i16::MIN
}

/// Mirror across the vertical axis.
pub open spec fn flip_spec(p: Point) -> Point {
    Point { x: (-p.x) as i16, y: p.y }
}

/// Quarter-turn rotation selected by `r` in `0..=3`: the canonical
/// 0/90/180/270 degree transforms of the grid.
pub open spec fn rotate_spec(r: int, p: Point) -> Point {
    if r == 0 {
        p
    } else if r == 1 {
        Point { x: (-p.y) as i16, y: p.x }
    } else if r == 2 {
        Point { x: (-p.x) as i16, y: (-p.y) as i16 }
    } else {
        Point { x: p.y, y: (-p.x) as i16 }
    }
}

/// A shape the variant generator accepts: a supported rotation count and
/// points whose coordinates survive negation.
pub open spec fn shape_ok(s: Shape) -> bool {
    &&& s.attrs.rotations <= 3
    &&& forall|i: int| 0 <= i < s.points@.len() ==> coords_in_range(#[trigger] s.points@[i])
}

/// One variant: every point optionally mirrored, then rotated by `r`.
pub open spec fn transformed(ps: Seq<Point>, flipped: bool, r: int) -> Seq<Point> {
    ps.map_values(|p: Point| rotate_spec(r, if flipped { flip_spec(p) } else { p }))
}

/// How many variants a shape with these attributes expands to.
pub open spec fn variant_count(attrs: ShapeAttrs) -> nat {
    (if attrs.chiral { 2nat } else { 1nat }) * (attrs.rotations + 1) as nat
}

pub fn flip_point(p: Point) -> (q: Point)
    requires
        p.x > i16::MIN,
    ensures
        q == flip_spec(p),
{
    Point { x: -p.x, y: p.y }
}

pub fn rotate_point(r: u8, p: Point) -> (q: Point)
    requires
        r <= 3,
        coords_in_range(p),
    ensures
        q == rotate_spec(r as int, p),
{
    if r == 0 {
        p
    } else if r == 1 {
        Point { x: -p.y, y: p.x }
    } else if r == 2 {
        Point { x: -p.x, y: -p.y }
    } else {
        Point { x: p.y, y: -p.x }
    }
}

/// Expand a shape into its variant point lists: for each flip choice (the
/// identity, then the mirror when the shape is chiral) and each rotation
/// index `0..=rotations`, in that order. Geometrically identical variants of
/// symmetric shapes are kept, not deduplicated: the list is purely
/// combinatorial, so its length and order are fixed by the attributes alone.
pub fn variants(shape: &Shape) -> (vs: Vec<Vec<Point>>)
    requires
        shape_ok(*shape),
    ensures
        vs@.len() == variant_count(shape.attrs),
        forall|f: int, r: int|
            0 <= f < (if shape.attrs.chiral { 2int } else { 1int }) && 0 <= r <= shape.attrs.rotations
                ==> #[trigger] vs@[f * (shape.attrs.rotations + 1) + r]@ == transformed(
                shape.points@,
                f == 1,
                r,
            ),
{
    let flips: u8 = if shape.attrs.chiral { 2 } else { 1 };
    let rots: u8 = shape.attrs.rotations;
    let mut vs: Vec<Vec<Point>> = Vec::new();
    let mut f: u8 = 0;
    while f < flips
        invariant
            flips == (if shape.attrs.chiral { 2u8 } else { 1u8 }),
            rots == shape.attrs.rotations,
            shape_ok(*shape),
            f <= flips,
            vs@.len() == f * (rots + 1),
            forall|fi: int, r: int|
                0 <= fi < f && 0 <= r <= rots ==> #[trigger] vs@[fi * (rots + 1) + r]@
                    == transformed(shape.points@, fi == 1, r),
        decreases flips - f,
    {
        let mut r: u8 = 0;
        while r <= rots
            invariant
                flips == (if shape.attrs.chiral { 2u8 } else { 1u8 }),
                rots == shape.attrs.rotations,
                shape_ok(*shape),
                f < flips,
                r <= rots + 1,
                vs@.len() == f * (rots + 1) + r,
                forall|fi: int, ri: int|
                    0 <= fi < f && 0 <= ri <= rots ==> #[trigger] vs@[fi * (rots + 1) + ri]@
                        == transformed(shape.points@, fi == 1, ri),
                forall|ri: int|
                    0 <= ri < r ==> #[trigger] vs@[f * (rots + 1) + ri]@ == transformed(
                        shape.points@,
                        f == 1,
                        ri,
                    ),
            decreases rots + 1 - r,
        {
            let mut v: Vec<Point> = Vec::new();
            let mut i: usize = 0;
            while i < shape.points.len()
                invariant
                    shape_ok(*shape),
                    r <= rots <= 3,
                    i <= shape.points@.len(),
                    v@ == transformed(shape.points@, f == 1, r as int).take(i as int),
                decreases shape.points@.len() - i,
            {
                let p = shape.points[i];
                let base = if f == 1 {
                    flip_point(p)
                } else {
                    p
                };
                let q = rotate_point(r, base);
                v.push(q);
                proof {
                    assert(transformed(shape.points@, f == 1, r as int).take(i + 1)
                        =~= transformed(shape.points@, f == 1, r as int).take(i as int).push(q));
                }
                i = i + 1;
            }
            proof {
                assert(v@ =~= transformed(shape.points@, f == 1, r as int));
            }
            vs.push(v);
            r = r + 1;
        }
        proof {
            assert((f as int) * ((rots as int) + 1) + ((rots as int) + 1) == ((f as int) + 1) * ((
            rots as int) + 1)) by (nonlinear_arith);
        }
        f = f + 1;
    }
    proof {
        assert(vs@.len() == variant_count(shape.attrs));
    }
    vs
}

} // verus!
