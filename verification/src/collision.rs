//! Narrow-phase collision tests on top of the tree: the Möller–Trumbore
//! ray–triangle intersection for ground-height queries, a restricted
//! separating-axis test for solid-object push-out, and the composite query
//! that walks the tree once per simulated tick.
//!
//! The separating-axis test deliberately checks only the face normals found
//! on the two polygons' vertices, not edge cross products: every solid this
//! engine builds is an axis- or yaw-oriented box, for which those axes are
//! exact, and existing content depends on the push-out vectors staying as
//! they are.

use crate::float_bits::{add_bits, div_bits, f_add, f_div, f_max, f_min, f_mul, f_sub, le,
    le_bits, lt, lt_bits, max_bits, min_bits, mul_bits, sub_bits, NEG_ONE_BITS, ONE_BITS,
    ZERO_BITS};
use crate::math::{add_vector, cross_product, dot_product, mult_vector, v_addmul, v_cross, v_dot,
    v_scale};
use crate::quadoctree::{run_visitor, traverse_quadoctree, visited, CollisionObj, ObjView,
    QuadOctreeNode, TreeVisitor, Vertex, VertView};
use vstd::prelude::*;

verus! {

/// Bit pattern of the ray test's fixed tolerance, a millionth.
pub const EPSILON_BITS: u32 = 0x358637bd;

/// Bit pattern of the negated tolerance.
pub const NEG_EPSILON_BITS: u32 = 0xb58637bd;

/// Bit pattern of a quarter: the upward offset put on a ground query's
/// origin.
pub const QUARTER_BITS: u32 = 0x3e80_0000;

/// Bit pattern of the largest finite single-precision value.
pub const F32_MAX_BITS: u32 = 0x7f7f_ffff;

/// Bit pattern of the lowest finite single-precision value.
pub const F32_MIN_BITS: u32 = 0xff7f_ffff;

/// How many push-out vectors one query will gather at most.
pub const MAX_POLY_COLLIDE: usize = 4;

/// What one composite query reports: the first ground intersection found, if
/// any, and up to `MAX_POLY_COLLIDE` push-out vectors.
pub struct CollisionResult {
    pub triangle: Option<[u32; 3]>,
    pub polygons: Vec<[u32; 3]>,
}

/// The three corner positions of a triangle array, as sequences.
pub open spec fn tri_views(t: [[u32; 3]; 3]) -> Seq<Seq<u32>> {
    seq![t[0]@, t[1]@, t[2]@]
}

/// The fixed downward ray direction of a ground query.
pub open spec fn down_dir() -> Seq<u32> {
    seq![ZERO_BITS, NEG_ONE_BITS, ZERO_BITS]
}

/// Whether the Möller–Trumbore test reports a hit: the ray must not be
/// parallel to the triangle's plane within the tolerance, the barycentric
/// coordinates must fall inside the triangle, and the hit must lie strictly
/// ahead of the origin.
pub open spec fn ray_hits(tri: Seq<Seq<u32>>, orig: Seq<u32>, dir: Seq<u32>) -> bool {
    let e1 = v_addmul(tri[1], tri[0], NEG_ONE_BITS);
    let e2 = v_addmul(tri[2], tri[0], NEG_ONE_BITS);
    let pvec = v_cross(dir, e2);
    let det = v_dot(e1, pvec);
    if lt(NEG_EPSILON_BITS, det) && lt(det, EPSILON_BITS) {
        false
    } else {
        let inv_det = f_div(ONE_BITS, det);
        let tvec = v_addmul(orig, tri[0], NEG_ONE_BITS);
        let u = f_mul(v_dot(tvec, pvec), inv_det);
        if lt(u, ZERO_BITS) || lt(ONE_BITS, u) {
            false
        } else {
            let qvec = v_cross(tvec, e1);
            let v = f_mul(v_dot(dir, qvec), inv_det);
            if lt(v, ZERO_BITS) || lt(ONE_BITS, f_add(u, v)) {
                false
            } else {
                let t = f_mul(v_dot(e2, qvec), inv_det);
                !le(t, EPSILON_BITS)
            }
        }
    }
}

/// The point a successful Möller–Trumbore test returns:
/// `origin + direction * t`.
pub open spec fn ray_hit_point(tri: Seq<Seq<u32>>, orig: Seq<u32>, dir: Seq<u32>) -> Seq<u32> {
    let e1 = v_addmul(tri[1], tri[0], NEG_ONE_BITS);
    let e2 = v_addmul(tri[2], tri[0], NEG_ONE_BITS);
    let pvec = v_cross(dir, e2);
    let det = v_dot(e1, pvec);
    let inv_det = f_div(ONE_BITS, det);
    let tvec = v_addmul(orig, tri[0], NEG_ONE_BITS);
    let qvec = v_cross(tvec, e1);
    let t = f_mul(v_dot(e2, qvec), inv_det);
    v_addmul(orig, dir, t)
}

/// Ray–triangle intersection after Möller–Trumbore, on one triangle.
pub fn moller_trumbore(triangle: &[[u32; 3]; 3], ray_origin: &[u32; 3], ray_direction: &[u32; 3])
    -> (r: Option<[u32; 3]>)
    ensures
        r is Some <==> ray_hits(tri_views(*triangle), ray_origin@, ray_direction@),
        r matches Some(p) ==> p@ == ray_hit_point(tri_views(*triangle), ray_origin@,
            ray_direction@),
{
    proof {
        assert(tri_views(*triangle)[0] == triangle[0]@);
        assert(tri_views(*triangle)[1] == triangle[1]@);
        assert(tri_views(*triangle)[2] == triangle[2]@);
    }
    let edge1 = add_vector(&triangle[1], &triangle[0], NEG_ONE_BITS);
    let edge2 = add_vector(&triangle[2], &triangle[0], NEG_ONE_BITS);

    let pvec = cross_product(ray_direction, &edge2);
    let det = dot_product(&edge1, &pvec);

    if lt_bits(NEG_EPSILON_BITS, det) && lt_bits(det, EPSILON_BITS) {
        return None;
    }
    let inv_det = div_bits(ONE_BITS, det);
    let tvec = add_vector(ray_origin, &triangle[0], NEG_ONE_BITS);

    let u = mul_bits(dot_product(&tvec, &pvec), inv_det);
    if lt_bits(u, ZERO_BITS) || lt_bits(ONE_BITS, u) {
        return None;
    }

    let qvec = cross_product(&tvec, &edge1);

    let v = mul_bits(dot_product(ray_direction, &qvec), inv_det);
    if lt_bits(v, ZERO_BITS) || lt_bits(ONE_BITS, add_bits(u, v)) {
        return None;
    }

    let t = mul_bits(dot_product(&edge2, &qvec), inv_det);
    if le_bits(t, EPSILON_BITS) {
        return None;
    }
    Some(add_vector(ray_origin, ray_direction, t))
}

/// The interval a vertex list projects to on an axis, scanned from the given
/// accumulators.
pub open spec fn proj_scan(verts: Seq<VertView>, axis: Seq<u32>, i: int, lo: u32, hi: u32) -> (
    u32,
    u32,
)
    decreases verts.len() - i,
{
    if 0 <= i < verts.len() {
        let pr = v_dot(axis, verts[i].position);
        let lo2 = if lt(pr, lo) {
            pr
        } else {
            lo
        };
        let hi2 = if lt(hi, pr) {
            pr
        } else {
            hi
        };
        proj_scan(verts, axis, i + 1, lo2, hi2)
    } else {
        (lo, hi)
    }
}

/// The projection interval of a whole vertex list, starting from the widest
/// empty interval.
pub open spec fn sat_project(verts: Seq<VertView>, axis: Seq<u32>) -> (u32, u32) {
    proj_scan(verts, axis, 0, F32_MAX_BITS, F32_MIN_BITS)
}

/// Project every vertex onto an axis and keep the lowest and highest value.
pub fn sat_axis_projection(vertices: &Vec<Vertex>, axis: &[u32; 3]) -> (r: (u32, u32))
    ensures
        r == sat_project(vertices@.map_values(|v: Vertex| v@), axis@),
{
    let mut lo: u32 = F32_MAX_BITS;
    let mut hi: u32 = F32_MIN_BITS;
    let ghost vs = vertices@.map_values(|v: Vertex| v@);
    let mut i: usize = 0;
    while i < vertices.len()
        invariant
            i <= vertices@.len(),
            vs == vertices@.map_values(|v: Vertex| v@),
            sat_project(vs, axis@) == proj_scan(vs, axis@, i as int, lo, hi),
        decreases vertices@.len() - i,
    {
        let pr = dot_product(axis, &vertices[i].position);
        proof {
            assert(vs[i as int].position == vertices@[i as int].position@);
        }
        if lt_bits(pr, lo) {
            lo = pr;
        }
        if lt_bits(hi, pr) {
            hi = pr;
        }
        i = i + 1;
    }
    (lo, hi)
}

/// The distinct face normals of a vertex run from index `i` on, appended to
/// an accumulator in first-seen order; a normal already present (bit for
/// bit) is skipped.
pub open spec fn add_axes(vs: Seq<VertView>, i: int, acc: Seq<Seq<u32>>) -> Seq<Seq<u32>>
    decreases vs.len() - i,
{
    if 0 <= i < vs.len() {
        add_axes(vs, i + 1, if acc.contains(vs[i].normal) {
            acc
        } else {
            acc.push(vs[i].normal)
        })
    } else {
        acc
    }
}

/// The candidate separating axes of a polygon pair: the distinct face
/// normals of the first polygon's vertices, then of the second's.
pub open spec fn sat_axes(av: Seq<VertView>, bv: Seq<VertView>) -> Seq<Seq<u32>> {
    add_axes(bv, 0, add_axes(av, 0, Seq::empty()))
}

/// Whether the run holds an axis with exactly these bits.
fn contains_axis(axes: &Vec<[u32; 3]>, n: &[u32; 3]) -> (r: bool)
    ensures
        r == axes@.map_values(|x: [u32; 3]| x@).contains(n@),
{
    let ghost mapped = axes@.map_values(|x: [u32; 3]| x@);
    let mut j: usize = 0;
    while j < axes.len()
        invariant
            j <= axes@.len(),
            mapped == axes@.map_values(|x: [u32; 3]| x@),
            forall|k: int| 0 <= k < j ==> mapped[k] != n@,
        decreases axes@.len() - j,
    {
        if axes[j][0] == n[0] && axes[j][1] == n[1] && axes[j][2] == n[2] {
            proof {
                assert(mapped[j as int] =~= n@);
            }
            return true;
        }
        proof {
            assert(axes@[j as int]@[0] != n@[0] || axes@[j as int]@[1] != n@[1] || axes@[
                j as int
            ]@[2] != n@[2]);
        }
        j = j + 1;
    }
    proof {
        if mapped.contains(n@) {
            let k = choose|k: int| 0 <= k < mapped.len() && mapped[k] == n@;
            assert(false);
        }
    }
    false
}

/// Append the distinct normals of one vertex list to the axis list.
fn gather_axes(axes: &mut Vec<[u32; 3]>, vertices: &Vec<Vertex>)
    ensures
        final(axes)@.map_values(|x: [u32; 3]| x@) == add_axes(
            vertices@.map_values(|v: Vertex| v@),
            0,
            old(axes)@.map_values(|x: [u32; 3]| x@),
        ),
{
    let ghost vs = vertices@.map_values(|v: Vertex| v@);
    let ghost full = add_axes(vs, 0, old(axes)@.map_values(|x: [u32; 3]| x@));
    let mut i: usize = 0;
    while i < vertices.len()
        invariant
            i <= vertices@.len(),
            vs == vertices@.map_values(|v: Vertex| v@),
            full == add_axes(vs, i as int, axes@.map_values(|x: [u32; 3]| x@)),
        decreases vertices@.len() - i,
    {
        let ghost acc = axes@.map_values(|x: [u32; 3]| x@);
        proof {
            assert(vs[i as int].normal == vertices@[i as int].normal@);
        }
        if !contains_axis(axes, &vertices[i].normal) {
            let ghost before = axes@;
            axes.push(vertices[i].normal);
            proof {
                assert(axes@.map_values(|x: [u32; 3]| x@) =~= acc.push(vs[i as int].normal));
            }
        }
        i = i + 1;
    }
}

/// The state of the axis scan: whether a separating axis was found (the
/// polygons are apart), and the best qualifying axis so far with its overlap
/// depth.
#[verifier::ext_equal]
pub ghost struct SatState {
    pub sep: bool,
    pub found: bool,
    pub axis: Seq<u32>,
    pub depth: u32,
}

/// The scan's starting state: nothing found, the depth at the largest finite
/// value.
pub open spec fn sat_init() -> SatState {
    SatState { sep: false, found: false, axis: seq![ZERO_BITS, ZERO_BITS, ZERO_BITS], depth: F32_MAX_BITS }
}

/// One axis of the scan: report separation when the projection intervals do
/// not meet; otherwise keep the axis if its overlap depth is the smallest
/// yet and it points from the first polygon's centre toward the second's.
pub open spec fn sat_step(
    st: SatState,
    axis: Seq<u32>,
    av: Seq<VertView>,
    ac: Seq<u32>,
    bv: Seq<VertView>,
    bc: Seq<u32>,
) -> SatState {
    if st.sep {
        st
    } else {
        let ap = sat_project(av, axis);
        let bp = sat_project(bv, axis);
        if lt(ap.1, bp.0) || lt(bp.1, ap.0) {
            SatState { sep: true, ..st }
        } else {
            let range_diff = f_sub(f_min(bp.1, ap.1), f_max(bp.0, ap.0));
            let direction_validation = v_dot(v_addmul(bc, ac, NEG_ONE_BITS), axis);
            if lt(range_diff, st.depth) && lt(ZERO_BITS, direction_validation) {
                SatState { sep: false, found: true, axis: axis, depth: range_diff }
            } else {
                st
            }
        }
    }
}

/// The scan over the axis run from index `i` on.
pub open spec fn sat_scan(
    axes: Seq<Seq<u32>>,
    i: int,
    st: SatState,
    av: Seq<VertView>,
    ac: Seq<u32>,
    bv: Seq<VertView>,
    bc: Seq<u32>,
) -> SatState
    decreases axes.len() - i,
{
    if 0 <= i < axes.len() {
        sat_scan(axes, i + 1, sat_step(st, axes[i], av, ac, bv, bc), av, ac, bv, bc)
    } else {
        st
    }
}

/// Once separation is seen, the rest of the scan changes nothing.
proof fn lemma_sat_scan_sep(
    axes: Seq<Seq<u32>>,
    i: int,
    st: SatState,
    av: Seq<VertView>,
    ac: Seq<u32>,
    bv: Seq<VertView>,
    bc: Seq<u32>,
)
    requires
        st.sep,
    ensures
        sat_scan(axes, i, st, av, ac, bv, bc) == st,
    decreases axes.len() - i,
{
    if 0 <= i < axes.len() {
        lemma_sat_scan_sep(axes, i + 1, st, av, ac, bv, bc);
    }
}

/// What the restricted separating-axis test reports for a polygon pair:
/// `None` when some candidate axis separates them or no axis qualified, and
/// otherwise the qualifying axis of least overlap scaled by that overlap —
/// the push-out vector from the first polygon toward the second.
pub open spec fn sat_result(
    av: Seq<VertView>,
    ac: Seq<u32>,
    bv: Seq<VertView>,
    bc: Seq<u32>,
) -> Option<Seq<u32>> {
    let st = sat_scan(sat_axes(av, bv), 0, sat_init(), av, ac, bv, bc);
    if st.sep {
        None
    } else if st.found {
        Some(v_scale(st.axis, st.depth))
    } else {
        None
    }
}

/// The restricted separating-axis test on two polygons given by their
/// vertices and centres.
pub fn sat_polypoly(
    a_vertices: &Vec<Vertex>,
    a_center: &[u32; 3],
    b_vertices: &Vec<Vertex>,
    b_center: &[u32; 3],
) -> (r: Option<[u32; 3]>)
    ensures
        ({
            let spec_r = sat_result(
                a_vertices@.map_values(|v: Vertex| v@),
                a_center@,
                b_vertices@.map_values(|v: Vertex| v@),
                b_center@,
            );
            &&& (r is Some <==> spec_r is Some)
            &&& (r matches Some(p) ==> Some(p@) == spec_r)
        }),
{
    let ghost av = a_vertices@.map_values(|v: Vertex| v@);
    let ghost bv = b_vertices@.map_values(|v: Vertex| v@);
    let mut axes: Vec<[u32; 3]> = Vec::new();
    proof {
        assert(axes@.map_values(|x: [u32; 3]| x@) =~= Seq::<Seq<u32>>::empty());
    }
    gather_axes(&mut axes, a_vertices);
    gather_axes(&mut axes, b_vertices);
    let ghost all_axes = sat_axes(av, bv);
    proof {
        assert(axes@.map_values(|x: [u32; 3]| x@) == all_axes);
    }
    let mut min_range_diff: u32 = F32_MAX_BITS;
    let mut min_axis: [u32; 3] = [ZERO_BITS, ZERO_BITS, ZERO_BITS];
    let mut found: bool = false;
    proof {
        assert(min_axis@ =~= sat_init().axis);
    }
    let mut i: usize = 0;
    while i < axes.len()
        invariant
            i <= axes@.len(),
            all_axes == axes@.map_values(|x: [u32; 3]| x@),
            all_axes == sat_axes(av, bv),
            av == a_vertices@.map_values(|v: Vertex| v@),
            bv == b_vertices@.map_values(|v: Vertex| v@),
            sat_scan(all_axes, 0, sat_init(), av, a_center@, bv, b_center@) == sat_scan(
                all_axes,
                i as int,
                SatState { sep: false, found: found, axis: min_axis@, depth: min_range_diff },
                av,
                a_center@,
                bv,
                b_center@,
            ),
        decreases axes@.len() - i,
    {
        let ghost st_now = SatState {
            sep: false,
            found: found,
            axis: min_axis@,
            depth: min_range_diff,
        };
        let axis = axes[i];
        proof {
            assert(all_axes[i as int] == axis@);
        }
        let a_project = sat_axis_projection(a_vertices, &axis);
        let b_project = sat_axis_projection(b_vertices, &axis);

        if lt_bits(a_project.1, b_project.0) || lt_bits(b_project.1, a_project.0) {
            proof {
                let stepped = sat_step(st_now, axis@, av, a_center@, bv, b_center@);
                assert(stepped.sep);
                lemma_sat_scan_sep(
                    all_axes,
                    i as int + 1,
                    stepped,
                    av,
                    a_center@,
                    bv,
                    b_center@,
                );
            }
            return None;
        }
        let range_diff = sub_bits(
            min_bits(b_project.1, a_project.1),
            max_bits(b_project.0, a_project.0),
        );

        let direction_validation = dot_product(&add_vector(b_center, a_center, NEG_ONE_BITS), &axis);
        if lt_bits(range_diff, min_range_diff) && lt_bits(ZERO_BITS, direction_validation) {
            min_range_diff = range_diff;
            min_axis = axis;
            found = true;
        }
        i = i + 1;
    }
    if found {
        Some(mult_vector(&min_axis, min_range_diff))
    } else {
        None
    }
}

/// The abstract state of a ground query: the query point and the first
/// ground hit found so far.
#[verifier::ext_equal]
pub ghost struct GroundModel {
    pub point: Seq<u32>,
    pub ground: Option<Seq<u32>>,
}

/// What one visited primitive does to a ground query: each triangle seen
/// before a hit is ray-tested downward from the lifted query point; the walk
/// stops at the first successful intersection.
pub open spec fn ground_step(m: GroundModel, obj: ObjView) -> (GroundModel, bool) {
    let m2 = match obj {
        ObjView::Triangle { pts } => if m.ground is None {
            GroundModel {
                ground: if ray_hits(pts, lifted_point(m.point), down_dir()) {
                    Some(ray_hit_point(pts, lifted_point(m.point), down_dir()))
                } else {
                    None
                },
                ..m
            }
        } else {
            m
        },
        _ => m,
    };
    (m2, m2.ground is Some)
}

/// The visitor a ground query walks the tree with.
pub struct GroundVisitor {
    pub point: [u32; 3],
    pub ground: Option<[u32; 3]>,
}

impl TreeVisitor for GroundVisitor {
    type Model = GroundModel;

    open spec fn model(&self) -> GroundModel {
        GroundModel {
            point: self.point@,
            ground: match self.ground {
                Some(g) => Some(g@),
                None => None,
            },
        }
    }

    open spec fn step_model(pre: GroundModel, obj: ObjView) -> (GroundModel, bool) {
        ground_step(pre, obj)
    }

    fn visit(&mut self, obj: &CollisionObj) -> (stop: bool)
        ensures
            final(self).model() == Self::step_model(old(self).model(), obj@).0,
            stop == Self::step_model(old(self).model(), obj@).1,
    {
        let ghost pre = self.model();
        if let CollisionObj::Triangle(tri) = obj {
            if self.ground.is_none() {
                let lifted = [
                    self.point[0],
                    add_bits(self.point[1], QUARTER_BITS),
                    self.point[2],
                ];
                let down = [ZERO_BITS, NEG_ONE_BITS, ZERO_BITS];
                proof {
                    assert(lifted@ =~= lifted_point(pre.point));
                    assert(down@ =~= down_dir());
                    assert(tri_views(*tri) =~= obj@->Triangle_pts);
                }
                self.ground = moller_trumbore(tri, &lifted, &down);
            }
        }
        self.ground.is_some()
    }
}

/// Walk the tree once for a point: the first triangle of the point's cell
/// chain that a downward ray from just above the point strikes gives the
/// ground height; primitives are taken in the traversal's order, not by
/// distance, and the walk ends at the first hit.
pub fn ground_height_at(tree: &QuadOctreeNode, point: &[u32; 3]) -> (r: Option<[u32; 3]>)
    ensures
        (match r {
            Some(g) => Some(g@),
            None => None::<Seq<u32>>,
        }) == run_visitor::<GroundVisitor>(
            GroundModel { point: point@, ground: None },
            visited(*tree, point@),
        ).0.ground,
{
    let mut visitor = GroundVisitor { point: *point, ground: None };
    proof {
        assert(visitor.model() =~= (GroundModel { point: point@, ground: None }));
    }
    traverse_quadoctree(tree, point, &mut visitor);
    visitor.ground
}

/// The abstract state of one composite query: the query point, the actor's
/// volume, the first ground hit found so far, and the push-out vectors
/// gathered so far.
#[verifier::ext_equal]
pub ghost struct CollideModel {
    pub point: Seq<u32>,
    pub player: ObjView,
    pub ground: Option<Seq<u32>>,
    pub pushes: Seq<Seq<u32>>,
}

/// A ground query's ray origin: the query point lifted a quarter unit.
pub open spec fn lifted_point(p: Seq<u32>) -> Seq<u32> {
    seq![p[0], f_add(p[1], QUARTER_BITS), p[2]]
}

/// A query's starting state: no ground hit, no push-out vectors.
pub open spec fn collide_init(p: Seq<u32>, player: ObjView) -> CollideModel {
    CollideModel { point: p, player: player, ground: None, pushes: Seq::empty() }
}

/// What one visited primitive does to a query's state, provided the actor's
/// volume is a polygon: the first triangle sets the ground result from a
/// downward ray test, and each overlapping polygon adds a push-out vector up
/// to the cap. The walk stops once the ground is set and the cap is reached.
pub open spec fn collide_step(m: CollideModel, obj: ObjView) -> (CollideModel, bool) {
    let m2 = match m.player {
        ObjView::Polygon { verts: pverts, center: pcenter } => match obj {
            ObjView::Triangle { pts } => if m.ground is None {
                CollideModel {
                    ground: if ray_hits(pts, lifted_point(m.point), down_dir()) {
                        Some(ray_hit_point(pts, lifted_point(m.point), down_dir()))
                    } else {
                        None
                    },
                    ..m
                }
            } else {
                m
            },
            ObjView::Polygon { verts: overts, center: ocenter } => if m.pushes.len()
                < MAX_POLY_COLLIDE {
                match sat_result(overts, ocenter, pverts, pcenter) {
                    Some(v) => CollideModel { pushes: m.pushes.push(v), ..m },
                    None => m,
                }
            } else {
                m
            },
        },
        _ => m,
    };
    (m2, m2.ground is Some && m2.pushes.len() >= MAX_POLY_COLLIDE)
}

/// The visitor a composite query walks the tree with.
pub struct PlayerCollideVisitor {
    pub point: [u32; 3],
    pub player_box: CollisionObj,
    pub result: CollisionResult,
}

impl TreeVisitor for PlayerCollideVisitor {
    type Model = CollideModel;

    open spec fn model(&self) -> CollideModel {
        CollideModel {
            point: self.point@,
            player: self.player_box@,
            ground: match self.result.triangle {
                Some(t) => Some(t@),
                None => None,
            },
            pushes: self.result.polygons@.map_values(|p: [u32; 3]| p@),
        }
    }

    open spec fn step_model(pre: CollideModel, obj: ObjView) -> (CollideModel, bool) {
        collide_step(pre, obj)
    }

    fn visit(&mut self, obj: &CollisionObj) -> (stop: bool)
        ensures
            final(self).model() == Self::step_model(old(self).model(), obj@).0,
            stop == Self::step_model(old(self).model(), obj@).1,
    {
        let ghost pre = self.model();
        let player_is_poly = match &self.player_box {
            CollisionObj::Polygon(_, _) => true,
            _ => false,
        };
        match obj {
            CollisionObj::Triangle(tri) => {
                if player_is_poly && self.result.triangle.is_none() {
                    let lifted = [
                        self.point[0],
                        add_bits(self.point[1], QUARTER_BITS),
                        self.point[2],
                    ];
                    let down = [ZERO_BITS, NEG_ONE_BITS, ZERO_BITS];
                    proof {
                        assert(lifted@ =~= lifted_point(pre.point));
                        assert(down@ =~= down_dir());
                        assert(tri_views(*tri) =~= obj@->Triangle_pts);
                    }
                    self.result.triangle = moller_trumbore(tri, &lifted, &down);
                }
            },
            CollisionObj::Polygon(o_vertices, o_center) => {
                if self.result.polygons.len() < MAX_POLY_COLLIDE {
                    let push = match &self.player_box {
                        CollisionObj::Polygon(p_vertices, p_center) => sat_polypoly(
                            o_vertices,
                            o_center,
                            p_vertices,
                            p_center,
                        ),
                        _ => None,
                    };
                    if let Some(vector) = push {
                        let ghost before = self.result.polygons@;
                        self.result.polygons.push(vector);
                        proof {
                            assert(self.result.polygons@.map_values(|p: [u32; 3]| p@)
                                =~= before.map_values(|p: [u32; 3]| p@).push(vector@));
                        }
                    }
                }
            },
        }
        let stop = self.result.triangle.is_some() && self.result.polygons.len()
            >= MAX_POLY_COLLIDE;
        proof {
            assert(final(self).model() =~= collide_step(pre, obj@).0);
        }
        stop
    }
}

/// The running sum of one cell of a 4-by-4 matrix product: `acc` plus
/// `a[i][k] * b[k][j]` for each `k` from the given one on, rounded at every
/// step.
pub open spec fn mat4_sum(
    a: [[u32; 4]; 4],
    b: [[u32; 4]; 4],
    i: int,
    j: int,
    k: int,
    acc: u32,
) -> u32
    decreases 4 - k,
{
    if 0 <= k < 4 {
        mat4_sum(a, b, i, j, k + 1, f_add(acc, f_mul(a[i][k], b[k][j])))
    } else {
        acc
    }
}

/// One cell of a 4-by-4 matrix product, summed from zero.
pub open spec fn mat4_cell(a: [[u32; 4]; 4], b: [[u32; 4]; 4], i: int, j: int) -> u32 {
    mat4_sum(a, b, i, j, 0, ZERO_BITS)
}

/// The running sum of one cell of a 3-by-3 matrix product.
pub open spec fn mat3_sum(
    a: [[u32; 3]; 3],
    b: [[u32; 3]; 3],
    i: int,
    j: int,
    k: int,
    acc: u32,
) -> u32
    decreases 3 - k,
{
    if 0 <= k < 3 {
        mat3_sum(a, b, i, j, k + 1, f_add(acc, f_mul(a[i][k], b[k][j])))
    } else {
        acc
    }
}

/// One cell of a 3-by-3 matrix product, summed from zero.
pub open spec fn mat3_cell(a: [[u32; 3]; 3], b: [[u32; 3]; 3], i: int, j: int) -> u32 {
    mat3_sum(a, b, i, j, 0, ZERO_BITS)
}

/// Row-major product of two 4-by-4 matrices.
pub fn mult_matrix(a: &[[u32; 4]; 4], b: &[[u32; 4]; 4]) -> (r: [[u32; 4]; 4])
    ensures
        forall|i: int, j: int|
            0 <= i < 4 && 0 <= j < 4 ==> #[trigger] (r[i][j]) == mat4_cell(*a, *b, i, j),
{
    let mut result: [[u32; 4]; 4] = [
        [ZERO_BITS, ZERO_BITS, ZERO_BITS, ZERO_BITS],
        [ZERO_BITS, ZERO_BITS, ZERO_BITS, ZERO_BITS],
        [ZERO_BITS, ZERO_BITS, ZERO_BITS, ZERO_BITS],
        [ZERO_BITS, ZERO_BITS, ZERO_BITS, ZERO_BITS],
    ];
    let mut i: usize = 0;
    while i < 4
        invariant
            i <= 4,
            forall|p: int, q: int|
                0 <= p < i && 0 <= q < 4 ==> #[trigger] (result[p][q]) == mat4_cell(*a, *b, p, q),
        decreases 4 - i,
    {
        let mut row: [u32; 4] = [ZERO_BITS, ZERO_BITS, ZERO_BITS, ZERO_BITS];
        let mut j: usize = 0;
        while j < 4
            invariant
                i < 4,
                j <= 4,
                forall|q: int| 0 <= q < j ==> #[trigger] row[q] == mat4_cell(*a, *b, i as int, q),
            decreases 4 - j,
        {
            let mut acc: u32 = ZERO_BITS;
            let mut k: usize = 0;
            while k < 4
                invariant
                    i < 4,
                    j < 4,
                    k <= 4,
                    mat4_cell(*a, *b, i as int, j as int) == mat4_sum(
                        *a,
                        *b,
                        i as int,
                        j as int,
                        k as int,
                        acc,
                    ),
                decreases 4 - k,
            {
                acc = add_bits(acc, mul_bits(a[i][k], b[k][j]));
                k = k + 1;
            }
            row[j] = acc;
            j = j + 1;
        }
        result[i] = row;
        i = i + 1;
    }
    result
}

/// Row-major product of two 3-by-3 matrices.
pub fn mult_matrix3(a: &[[u32; 3]; 3], b: &[[u32; 3]; 3]) -> (r: [[u32; 3]; 3])
    ensures
        forall|i: int, j: int|
            0 <= i < 3 && 0 <= j < 3 ==> #[trigger] (r[i][j]) == mat3_cell(*a, *b, i, j),
{
    let mut result: [[u32; 3]; 3] = [
        [ZERO_BITS, ZERO_BITS, ZERO_BITS],
        [ZERO_BITS, ZERO_BITS, ZERO_BITS],
        [ZERO_BITS, ZERO_BITS, ZERO_BITS],
    ];
    let mut i: usize = 0;
    while i < 3
        invariant
            i <= 3,
            forall|p: int, q: int|
                0 <= p < i && 0 <= q < 3 ==> #[trigger] (result[p][q]) == mat3_cell(*a, *b, p, q),
        decreases 3 - i,
    {
        let mut row: [u32; 3] = [ZERO_BITS, ZERO_BITS, ZERO_BITS];
        let mut j: usize = 0;
        while j < 3
            invariant
                i < 3,
                j <= 3,
                forall|q: int| 0 <= q < j ==> #[trigger] row[q] == mat3_cell(*a, *b, i as int, q),
            decreases 3 - j,
        {
            let mut acc: u32 = ZERO_BITS;
            let mut k: usize = 0;
            while k < 3
                invariant
                    i < 3,
                    j < 3,
                    k <= 3,
                    mat3_cell(*a, *b, i as int, j as int) == mat3_sum(
                        *a,
                        *b,
                        i as int,
                        j as int,
                        k as int,
                        acc,
                    ),
                decreases 3 - k,
            {
                acc = add_bits(acc, mul_bits(a[i][k], b[k][j]));
                k = k + 1;
            }
            row[j] = acc;
            j = j + 1;
        }
        result[i] = row;
        i = i + 1;
    }
    result
}

/// Law: against an empty tree region — a query point whose visit order
/// holds no primitives — a composite query comes back as it started: no
/// ground hit and no push-out vectors.
pub proof fn lemma_empty_region_reports_nothing(t: QuadOctreeNode, p: Seq<u32>, player: ObjView)
    requires
        visited(t, p) =~= Seq::<ObjView>::empty(),
    ensures
        run_visitor::<PlayerCollideVisitor>(collide_init(p, player), visited(t, p)).0
            == collide_init(p, player),
        !run_visitor::<PlayerCollideVisitor>(collide_init(p, player), visited(t, p)).1,
{
}

/// Walk the tree once for an actor at `point` with volume `player_box`:
/// report the first ground intersection found below the point and up to
/// `MAX_POLY_COLLIDE` push-out vectors against overlapping solids, visiting
/// primitives in the traversal's order and stopping early once both are
/// complete.
pub fn check_player_collision(
    tree: &QuadOctreeNode,
    point: &[u32; 3],
    player_box: &CollisionObj,
) -> (result: CollisionResult)
    ensures
        ({
            let fin = run_visitor::<PlayerCollideVisitor>(
                collide_init(point@, player_box@),
                visited(*tree, point@),
            ).0;
            &&& (match result.triangle {
                Some(t) => Some(t@),
                None => None::<Seq<u32>>,
            }) == fin.ground
            &&& result.polygons@.map_values(|p: [u32; 3]| p@) == fin.pushes
        }),
{
    let mut visitor = PlayerCollideVisitor {
        point: *point,
        player_box: player_box.duplicate(),
        result: CollisionResult { triangle: None, polygons: Vec::new() },
    };
    proof {
        assert(visitor.model() =~= collide_init(point@, player_box@));
    }
    traverse_quadoctree(tree, point, &mut visitor);
    visitor.result
}

} // verus!
