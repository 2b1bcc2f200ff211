//! The adaptive spatial tree: a node owns an axis-aligned bounding box, a
//! capacity-bounded bucket of collision primitives, and optionally 4 (quad
//! mode) or 8 (oct mode) child nodes created by bisecting the box at the
//! midpoint of each axis. Primitives that do not fit entirely inside one
//! child stay at the parent level for good.

use crate::float_bits::{add_bits, div_bits, f_add, f_div, f_of_usize, f_sub, le, le_bits, lt,
    lt_bits, sub_bits, usize_to_bits, ZERO_BITS};
use vstd::multiset::Multiset;
use vstd::multiset::group_multiset_axioms;
use vstd::prelude::*;
use vstd::seq_lib::group_to_multiset_ensures;

verus! {

broadcast use group_to_multiset_ensures, group_multiset_axioms;

/// Bit pattern of the constant two, used to bisect a box.
pub const TWO_BITS: u32 = 0x4000_0000;

/// The one failure the tree can report: a node's own bucket is full and the
/// primitive fits in none of its children.
#[derive(Debug)]
pub enum QuadOctreeError {
    BucketFull,
}

/// An axis-aligned box given by two opposite corners.
#[derive(Clone, Copy)]
pub struct BoundingBox {
    pub start_pos: [u32; 3],
    pub end_pos: [u32; 3],
}

/// A mesh vertex as the collision system sees it: a position and the normal
/// of the face it belongs to.
#[derive(Clone, Copy)]
pub struct Vertex {
    pub position: [u32; 3],
    pub normal: [u32; 3],
}

/// A collision primitive: a bare triangle (ground queries) or a whole solid
/// polygon with its precomputed centroid (push-out queries).
pub enum CollisionObj {
    Triangle([[u32; 3]; 3]),
    Polygon(Vec<Vertex>, [u32; 3]),
}

/// Spec-level image of a `Vertex`.
#[verifier::ext_equal]
pub ghost struct VertView {
    pub position: Seq<u32>,
    pub normal: Seq<u32>,
}

/// Spec-level image of a `CollisionObj`.
#[verifier::ext_equal]
pub ghost enum ObjView {
    Triangle { pts: Seq<Seq<u32>> },
    Polygon { verts: Seq<VertView>, center: Seq<u32> },
}

impl View for Vertex {
    type V = VertView;

    open spec fn view(&self) -> VertView {
        VertView { position: self.position@, normal: self.normal@ }
    }
}

impl View for CollisionObj {
    type V = ObjView;

    open spec fn view(&self) -> ObjView {
        match *self {
            CollisionObj::Triangle(t) => ObjView::Triangle {
                pts: seq![t[0]@, t[1]@, t[2]@],
            },
            CollisionObj::Polygon(vs, c) => ObjView::Polygon {
                verts: vs@.map_values(|v: Vertex| v@),
                center: c@,
            },
        }
    }
}

impl CollisionObj {
    /// A structurally equal copy of the primitive.
    pub fn duplicate(&self) -> (r: CollisionObj)
        ensures
            r@ == self@,
    {
        match self {
            CollisionObj::Triangle(t) => CollisionObj::Triangle(*t),
            CollisionObj::Polygon(vs, c) => {
                let mut copy: Vec<Vertex> = Vec::new();
                let mut i: usize = 0;
                while i < vs.len()
                    invariant
                        i <= vs@.len(),
                        copy@ =~= vs@.subrange(0, i as int),
                    decreases vs@.len() - i,
                {
                    copy.push(vs[i]);
                    i = i + 1;
                }
                proof {
                    assert(copy@ =~= vs@);
                    assert(copy@.map_values(|v: Vertex| v@) =~= vs@.map_values(|v: Vertex| v@));
                }
                CollisionObj::Polygon(copy, *c)
            },
        }
    }
}

/// One node of the tree. The root is created with the world bounds and the
/// branching mode; descendants are created lazily on bucket overflow.
pub struct QuadOctreeNode {
    pub child_nodes: Option<Vec<QuadOctreeNode>>,
    pub items: Vec<CollisionObj>,
    pub bbox: BoundingBox,
    pub is_octree: bool,
    pub bucket_capacity: usize,
}

/// Half-open containment of a point: at or past `start` and strictly before
/// `end` on every axis.
pub open spec fn point_in_bbox(bbox: BoundingBox, v: Seq<u32>) -> bool {
    &&& le(bbox.start_pos[0], v[0]) && lt(v[0], bbox.end_pos[0])
    &&& le(bbox.start_pos[1], v[1]) && lt(v[1], bbox.end_pos[1])
    &&& le(bbox.start_pos[2], v[2]) && lt(v[2], bbox.end_pos[2])
}

/// A primitive is inside a box iff every one of its vertices is.
pub open spec fn obj_in_bbox(bbox: BoundingBox, obj: ObjView) -> bool {
    match obj {
        ObjView::Triangle { pts } => forall|i: int| 0 <= i < 3 ==> point_in_bbox(bbox, pts[i]),
        ObjView::Polygon { verts, center: _ } => forall|i: int|
            0 <= i < verts.len() ==> point_in_bbox(bbox, verts[i].position),
    }
}

/// A point on a box's `end` corner along any axis is outside: containment is
/// half-open.
pub proof fn lemma_end_face_excluded(bbox: BoundingBox, v: Seq<u32>, i: int)
    requires
        0 <= i < 3,
        v[i] == bbox.end_pos[i],
    ensures
        !point_in_bbox(bbox, v),
{
}

/// The children of a node, empty when it has none.
pub open spec fn child_seq(node: QuadOctreeNode) -> Seq<QuadOctreeNode> {
    match node.child_nodes {
        Some(v) => v@,
        None => Seq::empty(),
    }
}

/// The views of a bucket's primitives, as a multiset.
pub open spec fn items_ms(s: Seq<CollisionObj>) -> Multiset<ObjView> {
    s.map_values(|o: CollisionObj| o@).to_multiset()
}

/// The views of a node's own bucket.
pub open spec fn own_contents(node: QuadOctreeNode) -> Multiset<ObjView> {
    items_ms(node.items@)
}

/// Every primitive held in the nodes of `s` from index `i` on, descendants
/// included.
pub open spec fn nodes_contents_from(s: Seq<QuadOctreeNode>, i: int) -> Multiset<ObjView>
    decreases s, s.len() - i,
{
    if 0 <= i < s.len() {
        contents(s[i]).add(nodes_contents_from(s, i + 1))
    } else {
        Multiset::empty()
    }
}

/// Every primitive held in a node or any of its descendants, as a multiset.
pub open spec fn contents(node: QuadOctreeNode) -> Multiset<ObjView>
    decreases node, 0int,
{
    match node.child_nodes {
        Some(v) => own_contents(node).add(nodes_contents_from(v@, 0)),
        None => own_contents(node),
    }
}

/// Soundness of the nodes of `s` from index `i` on: each is itself sound and
/// agrees with its parent's branching mode and bucket capacity.
pub open spec fn nodes_wf_from(s: Seq<QuadOctreeNode>, i: int, oct: bool, cap: usize) -> bool
    decreases s, s.len() - i,
{
    if 0 <= i < s.len() {
        &&& wf(s[i])
        &&& s[i].is_octree == oct
        &&& s[i].bucket_capacity == cap
        &&& nodes_wf_from(s, i + 1, oct, cap)
    } else {
        true
    }
}

/// Structural soundness of a node: the bucket respects the capacity, the
/// capacity admits at least one primitive, and a subdivided node has exactly
/// 4 or 8 sound children as its mode demands.
pub open spec fn wf(node: QuadOctreeNode) -> bool
    decreases node, 0int,
{
    &&& node.items@.len() <= node.bucket_capacity
    &&& node.bucket_capacity >= 1
    &&& match node.child_nodes {
        Some(v) => v@.len() == (if node.is_octree {
            8int
        } else {
            4int
        }) && nodes_wf_from(v@, 0, node.is_octree, node.bucket_capacity),
        None => true,
    }
}

/// Pushing one primitive onto a bucket adds its view to the bucket's
/// multiset.
proof fn lemma_items_ms_push(s: Seq<CollisionObj>, o: CollisionObj)
    ensures
        items_ms(s.push(o)) =~= items_ms(s).insert(o@),
{
    assert(s.push(o).map_values(|x: CollisionObj| x@) =~= s.map_values(|x: CollisionObj| x@).push(
        o@,
    ));
}

/// Taking the front primitive off a bucket splits its multiset.
proof fn lemma_items_ms_remove0(s: Seq<CollisionObj>)
    requires
        s.len() > 0,
    ensures
        items_ms(s) =~= items_ms(s.remove(0)).insert(s[0]@),
{
    let m = s.map_values(|x: CollisionObj| x@);
    assert(s.remove(0).map_values(|x: CollisionObj| x@) =~= m.remove(0));
    assert(m.remove(0).to_multiset() =~= m.to_multiset().remove(m[0]));
    assert(m.to_multiset().count(m[0]) > 0);
}

/// A run of nodes whose subtrees are all empty contributes nothing.
proof fn lemma_nodes_contents_empty(s: Seq<QuadOctreeNode>, i: int)
    requires
        forall|k: int| i <= k < s.len() ==> contents(s[k]) =~= Multiset::<ObjView>::empty(),
    ensures
        nodes_contents_from(s, i) =~= Multiset::<ObjView>::empty(),
    decreases s.len() - i,
{
    if 0 <= i < s.len() {
        lemma_nodes_contents_empty(s, i + 1);
    }
}

/// Nodes that are each sound and agree on mode and capacity form a sound run.
proof fn lemma_nodes_wf_build(s: Seq<QuadOctreeNode>, i: int, oct: bool, cap: usize)
    requires
        forall|k: int|
            i <= k < s.len() ==> wf(s[k]) && s[k].is_octree == oct && s[k].bucket_capacity == cap,
    ensures
        nodes_wf_from(s, i, oct, cap),
    decreases s.len() - i,
{
    if 0 <= i < s.len() {
        lemma_nodes_wf_build(s, i + 1, oct, cap);
    }
}

/// A sound run makes each of its nodes sound.
proof fn lemma_nodes_wf_forall(s: Seq<QuadOctreeNode>, i: int, oct: bool, cap: usize)
    requires
        nodes_wf_from(s, i, oct, cap),
        0 <= i,
    ensures
        forall|k: int|
            i <= k < s.len() ==> wf(s[k]) && s[k].is_octree == oct && s[k].bucket_capacity == cap,
    decreases s.len() - i,
{
    if 0 <= i < s.len() {
        lemma_nodes_wf_forall(s, i + 1, oct, cap);
    }
}

/// Replacing the subtree at one position changes a run's multiset by exactly
/// what the subtree gained.
proof fn lemma_nodes_contents_update(
    s1: Seq<QuadOctreeNode>,
    s2: Seq<QuadOctreeNode>,
    j: int,
    m: Multiset<ObjView>,
    i: int,
)
    requires
        s1.len() == s2.len(),
        0 <= j < s1.len(),
        forall|k: int| 0 <= k < s1.len() && k != j ==> s2[k] == s1[k],
        contents(s2[j]) =~= contents(s1[j]).add(m),
        0 <= i <= s1.len(),
    ensures
        i <= j ==> nodes_contents_from(s2, i) =~= nodes_contents_from(s1, i).add(m),
        i > j ==> nodes_contents_from(s2, i) =~= nodes_contents_from(s1, i),
    decreases s1.len() - i,
{
    if i < s1.len() {
        lemma_nodes_contents_update(s1, s2, j, m, i + 1);
    }
}

/// The subtree at any position contributes no more than the whole run.
proof fn lemma_nodes_contents_le(s: Seq<QuadOctreeNode>, i: int, j: int)
    requires
        0 <= i <= j < s.len(),
    ensures
        contents(s[j]).len() <= nodes_contents_from(s, i).len(),
    decreases j - i,
{
    if i < j {
        lemma_nodes_contents_le(s, i + 1, j);
    }
}

impl QuadOctreeNode {
    /// A fresh leaf node over the given bounds.
    pub fn new(bbox: BoundingBox, is_octree: bool, bucket_capacity: usize) -> (node:
        QuadOctreeNode)
        requires
            bucket_capacity >= 1,
        ensures
            wf(node),
            node.child_nodes is None,
            node.items@ =~= Seq::<CollisionObj>::empty(),
            contents(node) =~= Multiset::<ObjView>::empty(),
            node.bbox == bbox,
            node.is_octree == is_octree,
            node.bucket_capacity == bucket_capacity,
    {
        QuadOctreeNode {
            child_nodes: None,
            items: Vec::new(),
            bbox,
            is_octree,
            bucket_capacity,
        }
    }

    /// A fresh tree: the root node over the world bounds.
    pub fn new_tree(bbox: BoundingBox, is_octree: bool, bucket_capacity: usize) -> (node:
        QuadOctreeNode)
        requires
            bucket_capacity >= 1,
        ensures
            wf(node),
            node.child_nodes is None,
            node.items@ =~= Seq::<CollisionObj>::empty(),
            contents(node) =~= Multiset::<ObjView>::empty(),
            node.bbox == bbox,
            node.is_octree == is_octree,
            node.bucket_capacity == bucket_capacity,
    {
        QuadOctreeNode::new(bbox, is_octree, bucket_capacity)
    }

    /// Whether this node has been subdivided.
    pub fn has_children(&self) -> (r: bool)
        ensures
            r == (self.child_nodes is Some),
    {
        self.child_nodes.is_some()
    }

    /// How many primitives this node holds in its own bucket.
    pub fn own_item_count(&self) -> (n: usize)
        ensures
            n == self.items@.len(),
    {
        self.items.len()
    }
}

/// Half-open containment test for one point.
pub fn vert_is_in_bbox(bbox: &BoundingBox, vert: &[u32; 3]) -> (r: bool)
    ensures
        r == point_in_bbox(*bbox, vert@),
{
    le_bits(bbox.start_pos[0], vert[0]) && lt_bits(vert[0], bbox.end_pos[0]) && le_bits(
        bbox.start_pos[1],
        vert[1],
    ) && lt_bits(vert[1], bbox.end_pos[1]) && le_bits(bbox.start_pos[2], vert[2]) && lt_bits(
        vert[2],
        bbox.end_pos[2],
    )
}

/// Containment test for a whole primitive: every vertex must pass.
pub fn obj_is_in_bbox(bbox: &BoundingBox, obj: &CollisionObj) -> (r: bool)
    ensures
        r == obj_in_bbox(*bbox, obj@),
{
    match obj {
        CollisionObj::Triangle(triangle) => {
            let mut i: usize = 0;
            while i < 3
                invariant
                    0 <= i <= 3,
                    forall|j: int| 0 <= j < i ==> point_in_bbox(*bbox, obj@->Triangle_pts[j]),
                    obj@ == (ObjView::Triangle {
                        pts: seq![triangle[0]@, triangle[1]@, triangle[2]@],
                    }),
                decreases 3 - i,
            {
                if !vert_is_in_bbox(bbox, &triangle[i]) {
                    proof {
                        assert(obj@->Triangle_pts[i as int] == triangle[i as int]@);
                    }
                    return false;
                }
                i = i + 1;
            }
            true
        },
        CollisionObj::Polygon(vertices, _center) => {
            let mut i: usize = 0;
            while i < vertices.len()
                invariant
                    0 <= i <= vertices@.len(),
                    forall|j: int| 0 <= j < i ==> point_in_bbox(*bbox, vertices@[j]@.position),
                    obj@ matches ObjView::Polygon { verts, center: _ } && verts
                        =~= vertices@.map_values(|v: Vertex| v@),
                decreases vertices@.len() - i,
            {
                if !vert_is_in_bbox(bbox, &vertices[i].position) {
                    proof {
                        assert(obj@->Polygon_verts[i as int].position == vertices@[i as int]@.position);
                    }
                    return false;
                }
                i = i + 1;
            }
            true
        },
    }
}

/// The midpoint of a box, axis by axis: `start + (end - start) / 2`.
pub open spec fn mid_of(bbox: BoundingBox) -> Seq<u32> {
    seq![
        f_add(bbox.start_pos[0], f_div(f_sub(bbox.end_pos[0], bbox.start_pos[0]), TWO_BITS)),
        f_add(bbox.start_pos[1], f_div(f_sub(bbox.end_pos[1], bbox.start_pos[1]), TWO_BITS)),
        f_add(bbox.start_pos[2], f_div(f_sub(bbox.end_pos[2], bbox.start_pos[2]), TWO_BITS)),
    ]
}

/// The corner pairs of a subdivided box, in creation order: 8 octants in oct
/// mode, 4 full-height quadrants in quad mode.
pub open spec fn child_boxes(bbox: BoundingBox, is_octree: bool) -> Seq<(Seq<u32>, Seq<u32>)> {
    let s = seq![bbox.start_pos[0], bbox.start_pos[1], bbox.start_pos[2]];
    let e = seq![bbox.end_pos[0], bbox.end_pos[1], bbox.end_pos[2]];
    let m = mid_of(bbox);
    if is_octree {
        seq![
            (s, m),
            (seq![m[0], s[1], s[2]], seq![e[0], m[1], m[2]]),
            (seq![s[0], s[1], m[2]], seq![m[0], m[1], e[2]]),
            (seq![m[0], s[1], m[2]], seq![e[0], m[1], e[2]]),
            (seq![s[0], m[1], s[2]], seq![m[0], e[1], m[2]]),
            (seq![m[0], m[1], s[2]], seq![e[0], e[1], m[2]]),
            (seq![s[0], m[1], m[2]], seq![m[0], e[1], e[2]]),
            (m, e),
        ]
    } else {
        seq![
            (s, seq![m[0], e[1], m[2]]),
            (seq![m[0], s[1], s[2]], seq![e[0], e[1], m[2]]),
            (seq![s[0], s[1], m[2]], seq![m[0], e[1], e[2]]),
            (seq![m[0], s[1], m[2]], e),
        ]
    }
}

/// The children of a subdivided node sit exactly on the bisected corners.
pub open spec fn child_boxes_match(s: Seq<QuadOctreeNode>, bbox: BoundingBox, is_octree: bool) -> bool {
    &&& s.len() == child_boxes(bbox, is_octree).len()
    &&& forall|k: int|
        0 <= k < s.len() ==> s[k].bbox.start_pos@ == child_boxes(bbox, is_octree)[k].0
            && s[k].bbox.end_pos@ == child_boxes(bbox, is_octree)[k].1
}

/// Half-open containment of a point between two corner sequences.
pub open spec fn point_in_corners(s: Seq<u32>, e: Seq<u32>, p: Seq<u32>) -> bool {
    &&& le(s[0], p[0]) && lt(p[0], e[0])
    &&& le(s[1], p[1]) && lt(p[1], e[1])
    &&& le(s[2], p[2]) && lt(p[2], e[2])
}

/// Law: when the rounded midpoint lies between the corners on every axis,
/// the boxes of a subdivision partition the parent box — every point of the
/// parent lies in exactly one child box under the half-open test.
pub proof fn lemma_child_boxes_partition(bbox: BoundingBox, is_octree: bool, p: Seq<u32>)
    requires
        le(bbox.start_pos[0], mid_of(bbox)[0]) && le(mid_of(bbox)[0], bbox.end_pos[0]),
        le(bbox.start_pos[1], mid_of(bbox)[1]) && le(mid_of(bbox)[1], bbox.end_pos[1]),
        le(bbox.start_pos[2], mid_of(bbox)[2]) && le(mid_of(bbox)[2], bbox.end_pos[2]),
        point_in_bbox(bbox, p),
    ensures
        exists|k: int|
            0 <= k < child_boxes(bbox, is_octree).len() && #[trigger] point_in_corners(
                child_boxes(bbox, is_octree)[k].0,
                child_boxes(bbox, is_octree)[k].1,
                p,
            ),
        forall|k1: int, k2: int|
            0 <= k1 < child_boxes(bbox, is_octree).len() && 0 <= k2 < child_boxes(
                bbox,
                is_octree,
            ).len() && #[trigger] point_in_corners(
                child_boxes(bbox, is_octree)[k1].0,
                child_boxes(bbox, is_octree)[k1].1,
                p,
            ) && #[trigger] point_in_corners(
                child_boxes(bbox, is_octree)[k2].0,
                child_boxes(bbox, is_octree)[k2].1,
                p,
            ) ==> k1 == k2,
{
    let m = mid_of(bbox);
    let cb = child_boxes(bbox, is_octree);
    let hx = !lt(p[0], m[0]);
    let hy = !lt(p[1], m[1]);
    let hz = !lt(p[2], m[2]);
    let k: int = if is_octree {
        (if hx { 1int } else { 0int }) + (if hz { 2int } else { 0int }) + (if hy { 4int } else { 0int })
    } else {
        (if hx { 1int } else { 0int }) + (if hz { 2int } else { 0int })
    };
    // Each axis is split in two half-open parts; the point's side of the
    // midpoint picks the part, and the index gathers the sides.
    assert(point_in_corners(cb[k].0, cb[k].1, p)) by {
        if is_octree {
            if k == 0 {
                assert(point_in_corners(cb[0].0, cb[0].1, p));
            } else if k == 1 {
                assert(point_in_corners(cb[1].0, cb[1].1, p));
            } else if k == 2 {
                assert(point_in_corners(cb[2].0, cb[2].1, p));
            } else if k == 3 {
                assert(point_in_corners(cb[3].0, cb[3].1, p));
            } else if k == 4 {
                assert(point_in_corners(cb[4].0, cb[4].1, p));
            } else if k == 5 {
                assert(point_in_corners(cb[5].0, cb[5].1, p));
            } else if k == 6 {
                assert(point_in_corners(cb[6].0, cb[6].1, p));
            } else {
                assert(point_in_corners(cb[7].0, cb[7].1, p));
            }
        } else {
            if k == 0 {
                assert(point_in_corners(cb[0].0, cb[0].1, p));
            } else if k == 1 {
                assert(point_in_corners(cb[1].0, cb[1].1, p));
            } else if k == 2 {
                assert(point_in_corners(cb[2].0, cb[2].1, p));
            } else {
                assert(point_in_corners(cb[3].0, cb[3].1, p));
            }
        }
    }
    assert forall|kk: int|
        0 <= kk < cb.len() && #[trigger] point_in_corners(cb[kk].0, cb[kk].1, p) implies kk
        == k by {
        if is_octree {
            if kk == 0 {
                assert(lt(p[0], m[0]) && lt(p[1], m[1]) && lt(p[2], m[2]));
            } else if kk == 1 {
                assert(le(m[0], p[0]) && lt(p[1], m[1]) && lt(p[2], m[2]));
            } else if kk == 2 {
                assert(lt(p[0], m[0]) && lt(p[1], m[1]) && le(m[2], p[2]));
            } else if kk == 3 {
                assert(le(m[0], p[0]) && lt(p[1], m[1]) && le(m[2], p[2]));
            } else if kk == 4 {
                assert(lt(p[0], m[0]) && le(m[1], p[1]) && lt(p[2], m[2]));
            } else if kk == 5 {
                assert(le(m[0], p[0]) && le(m[1], p[1]) && lt(p[2], m[2]));
            } else if kk == 6 {
                assert(lt(p[0], m[0]) && le(m[1], p[1]) && le(m[2], p[2]));
            } else {
                assert(le(m[0], p[0]) && le(m[1], p[1]) && le(m[2], p[2]));
            }
        } else {
            if kk == 0 {
                assert(lt(p[0], m[0]) && lt(p[2], m[2]));
            } else if kk == 1 {
                assert(le(m[0], p[0]) && lt(p[2], m[2]));
            } else if kk == 2 {
                assert(lt(p[0], m[0]) && le(m[2], p[2]));
            } else {
                assert(le(m[0], p[0]) && le(m[2], p[2]));
            }
        }
    }
}

/// Law, on nodes: the children attached by a subdivision whose midpoint lies
/// between the corners hold any point of the parent box in exactly one
/// child's box.
pub proof fn lemma_children_partition(
    s: Seq<QuadOctreeNode>,
    bbox: BoundingBox,
    is_octree: bool,
    p: Seq<u32>,
)
    requires
        child_boxes_match(s, bbox, is_octree),
        le(bbox.start_pos[0], mid_of(bbox)[0]) && le(mid_of(bbox)[0], bbox.end_pos[0]),
        le(bbox.start_pos[1], mid_of(bbox)[1]) && le(mid_of(bbox)[1], bbox.end_pos[1]),
        le(bbox.start_pos[2], mid_of(bbox)[2]) && le(mid_of(bbox)[2], bbox.end_pos[2]),
        point_in_bbox(bbox, p),
    ensures
        exists|k: int| 0 <= k < s.len() && point_in_bbox(#[trigger] s[k].bbox, p),
        forall|k1: int, k2: int|
            0 <= k1 < s.len() && 0 <= k2 < s.len() && point_in_bbox(#[trigger] s[k1].bbox, p)
                && point_in_bbox(#[trigger] s[k2].bbox, p) ==> k1 == k2,
{
    let cb = child_boxes(bbox, is_octree);
    lemma_child_boxes_partition(bbox, is_octree, p);
    assert forall|k: int| 0 <= k < s.len() implies (point_in_bbox(s[k].bbox, p)
        <==> #[trigger] point_in_corners(cb[k].0, cb[k].1, p)) by {
        assert(s[k].bbox.start_pos@ == cb[k].0);
        assert(s[k].bbox.end_pos@ == cb[k].1);
    }
    let kw = choose|k: int|
        0 <= k < cb.len() && #[trigger] point_in_corners(cb[k].0, cb[k].1, p);
    assert(point_in_bbox(s[kw].bbox, p));
}

/// Subdivide a leaf: attach 4 or 8 fresh empty children on the bisected
/// corners. The node's own bucket is left alone.
fn create_sub_nodes(node: &mut QuadOctreeNode)
    requires
        old(node).child_nodes is None,
        wf(*old(node)),
    ensures
        wf(*final(node)),
        final(node).items == old(node).items,
        final(node).bbox == old(node).bbox,
        final(node).is_octree == old(node).is_octree,
        final(node).bucket_capacity == old(node).bucket_capacity,
        final(node).child_nodes is Some,
        child_seq(*final(node)).len() == (if old(node).is_octree {
            8int
        } else {
            4int
        }),
        forall|k: int|
            0 <= k < child_seq(*final(node)).len() ==> {
                let c = #[trigger] child_seq(*final(node))[k];
                c.child_nodes is None && c.items@.len() == 0 && c.is_octree == old(
                    node,
                ).is_octree && c.bucket_capacity == old(node).bucket_capacity && wf(c) && contents(
                    c,
                ) =~= Multiset::<ObjView>::empty()
            },
        child_boxes_match(child_seq(*final(node)), old(node).bbox, old(node).is_octree),
        contents(*final(node)) =~= contents(*old(node)),
{
    let s = node.bbox.start_pos;
    let e = node.bbox.end_pos;
    let oct = node.is_octree;
    let cap = node.bucket_capacity;
    let mid = [
        add_bits(s[0], div_bits(sub_bits(e[0], s[0]), TWO_BITS)),
        add_bits(s[1], div_bits(sub_bits(e[1], s[1]), TWO_BITS)),
        add_bits(s[2], div_bits(sub_bits(e[2], s[2]), TWO_BITS)),
    ];
    proof {
        assert(mid@ =~= mid_of(node.bbox));
    }
    let mut kids: Vec<QuadOctreeNode> = Vec::new();
    if oct {
        kids.push(QuadOctreeNode::new(BoundingBox { start_pos: s, end_pos: mid }, oct, cap));
        kids.push(QuadOctreeNode::new(BoundingBox {
            start_pos: [mid[0], s[1], s[2]],
            end_pos: [e[0], mid[1], mid[2]],
        }, oct, cap));
        kids.push(QuadOctreeNode::new(BoundingBox {
            start_pos: [s[0], s[1], mid[2]],
            end_pos: [mid[0], mid[1], e[2]],
        }, oct, cap));
        kids.push(QuadOctreeNode::new(BoundingBox {
            start_pos: [mid[0], s[1], mid[2]],
            end_pos: [e[0], mid[1], e[2]],
        }, oct, cap));
        kids.push(QuadOctreeNode::new(BoundingBox {
            start_pos: [s[0], mid[1], s[2]],
            end_pos: [mid[0], e[1], mid[2]],
        }, oct, cap));
        kids.push(QuadOctreeNode::new(BoundingBox {
            start_pos: [mid[0], mid[1], s[2]],
            end_pos: [e[0], e[1], mid[2]],
        }, oct, cap));
        kids.push(QuadOctreeNode::new(BoundingBox {
            start_pos: [s[0], mid[1], mid[2]],
            end_pos: [mid[0], e[1], e[2]],
        }, oct, cap));
        kids.push(QuadOctreeNode::new(BoundingBox { start_pos: mid, end_pos: e }, oct, cap));
    } else {
        kids.push(QuadOctreeNode::new(BoundingBox {
            start_pos: s,
            end_pos: [mid[0], e[1], mid[2]],
        }, oct, cap));
        kids.push(QuadOctreeNode::new(BoundingBox {
            start_pos: [mid[0], s[1], s[2]],
            end_pos: [e[0], e[1], mid[2]],
        }, oct, cap));
        kids.push(QuadOctreeNode::new(BoundingBox {
            start_pos: [s[0], s[1], mid[2]],
            end_pos: [mid[0], e[1], e[2]],
        }, oct, cap));
        kids.push(QuadOctreeNode::new(BoundingBox {
            start_pos: [mid[0], s[1], mid[2]],
            end_pos: e,
        }, oct, cap));
    }
    let ghost kseq = kids@;
    node.child_nodes = Some(kids);
    proof {
        let cb = child_boxes(node.bbox, oct);
        assert(child_seq(*node) == kseq);
        assert forall|k: int| 0 <= k < kseq.len() implies kseq[k].bbox.start_pos@ == cb[k].0
            && kseq[k].bbox.end_pos@ == cb[k].1 by {
            if k == 0 {
                assert(kseq[0].bbox.start_pos@ =~= cb[0].0);
                assert(kseq[0].bbox.end_pos@ =~= cb[0].1);
            } else if k == 1 {
                assert(kseq[1].bbox.start_pos@ =~= cb[1].0);
                assert(kseq[1].bbox.end_pos@ =~= cb[1].1);
            } else if k == 2 {
                assert(kseq[2].bbox.start_pos@ =~= cb[2].0);
                assert(kseq[2].bbox.end_pos@ =~= cb[2].1);
            } else if k == 3 {
                assert(kseq[3].bbox.start_pos@ =~= cb[3].0);
                assert(kseq[3].bbox.end_pos@ =~= cb[3].1);
            } else if k == 4 {
                assert(kseq[4].bbox.start_pos@ =~= cb[4].0);
                assert(kseq[4].bbox.end_pos@ =~= cb[4].1);
            } else if k == 5 {
                assert(kseq[5].bbox.start_pos@ =~= cb[5].0);
                assert(kseq[5].bbox.end_pos@ =~= cb[5].1);
            } else if k == 6 {
                assert(kseq[6].bbox.start_pos@ =~= cb[6].0);
                assert(kseq[6].bbox.end_pos@ =~= cb[6].1);
            } else if k == 7 {
                assert(kseq[7].bbox.start_pos@ =~= cb[7].0);
                assert(kseq[7].bbox.end_pos@ =~= cb[7].1);
            }
        }
        lemma_nodes_contents_empty(kseq, 0);
        lemma_nodes_wf_build(kseq, 0, oct, cap);
        assert(contents(*node) =~= own_contents(*node).add(Multiset::<ObjView>::empty()));
        assert(contents(*node) =~= contents(*old(node)));
        assert(wf(*node));
    }
}

/// Which child of `kids`, if any, wholly contains `obj`: the index of the
/// first fitting child, or `kids.len()` when none fits.
fn find_fitting_child(kids: &Vec<QuadOctreeNode>, obj: &CollisionObj) -> (fit: usize)
    ensures
        fit <= kids@.len(),
        fit < kids@.len() ==> obj_in_bbox(kids@[fit as int].bbox, obj@),
        forall|k: int| 0 <= k < fit ==> !obj_in_bbox(kids@[k].bbox, obj@),
{
    let mut j: usize = 0;
    while j < kids.len()
        invariant
            j <= kids@.len(),
            forall|k: int| 0 <= k < j ==> !obj_in_bbox(kids@[k].bbox, obj@),
        decreases kids@.len() - j,
    {
        if obj_is_in_bbox(&kids[j].bbox, obj) {
            return j;
        }
        j = j + 1;
    }
    j
}

/// The insertion worker. The `fuel` bounds how deep one insertion may walk or
/// grow the tree; every bound beyond the word size is unreachable in
/// practice, and when it runs out the primitive is kept at the level reached
/// instead of descending further.
fn insert_fueled(node: &mut QuadOctreeNode, obj: CollisionObj, fuel: u64) -> (r: Result<
    (),
    QuadOctreeError,
>)
    requires
        wf(*old(node)),
    ensures
        wf(*final(node)),
        final(node).bbox == old(node).bbox,
        final(node).is_octree == old(node).is_octree,
        final(node).bucket_capacity == old(node).bucket_capacity,
        r is Ok ==> contents(*final(node)) =~= contents(*old(node)).insert(obj@),
        r is Err ==> contents(*final(node)) =~= contents(*old(node)) && r->Err_0 is BucketFull,
        contents(*old(node)).len() < old(node).bucket_capacity ==> r is Ok,
        preserves_structure(*old(node), *final(node)),
        old(node).child_nodes is None && old(node).items@.len() < old(node).bucket_capacity
            ==> final(node).child_nodes is None
            && final(node).items@ == old(node).items@.push(obj)
            && r is Ok,
        old(node).child_nodes is Some
            ==> final(node).items@ == old(node).items@
            || final(node).items@ == old(node).items@.push(obj),
        r is Ok ==> placed_at(*final(node), obj@, fuel as int),
        r is Err ==> blocked_at(*final(node), obj@, fuel as int),
        touched_along(*old(node), *final(node), obj),
    decreases fuel,
{
    let ghost pre = *old(node);
    if node.child_nodes.is_none() {
        if node.items.len() < node.bucket_capacity {
            let ghost before = node.items@;
            node.items.push(obj);
            proof {
                lemma_items_ms_push(before, obj);
                assert(contents(*node) =~= contents(pre).insert(obj@));
                assert(preserves_structure(pre, *node));
                assert(fits_no_child(*node, obj@));
                assert(node.items@.last() == obj);
                lemma_placed_here(*node, obj@, fuel as int);
                assert(touched_along(pre, *node, obj));
            }
            return Ok(());
        }
        // The bucket is at capacity: split this leaf and spread its
        // primitives over the new children; whatever straddles a boundary
        // stays here.
        proof {
            assert(own_contents(pre).len() == pre.items@.len());
            assert(contents(pre).len() >= pre.bucket_capacity);
        }
        create_sub_nodes(node);
        let ghost m0 = contents(*node);
        let ghost oct = node.is_octree;
        let ghost cap = node.bucket_capacity;
        let mut old_items: Vec<CollisionObj> = Vec::new();
        core::mem::swap(&mut node.items, &mut old_items);
        let mut kids = node.child_nodes.take().unwrap();
        proof {
            lemma_nodes_contents_empty(kids@, 0);
            lemma_nodes_wf_forall(kids@, 0, oct, cap);
            assert(items_ms(node.items@) =~= Multiset::<ObjView>::empty());
            assert(items_ms(node.items@).add(nodes_contents_from(kids@, 0)).add(items_ms(
                old_items@,
            )) =~= m0);
        }
        while old_items.len() > 0
            invariant
                kids@.len() == (if oct {
                    8int
                } else {
                    4int
                }),
                nodes_wf_from(kids@, 0, oct, cap),
                cap >= 1,
                forall|k: int| 0 <= k < kids@.len() ==> kids@[k].items@.len() + old_items@.len()
                    <= cap,
                node.items@.len() + old_items@.len() <= cap,
                items_ms(node.items@).add(nodes_contents_from(kids@, 0)).add(items_ms(old_items@))
                    =~= m0,
                node.child_nodes is None,
                node.bbox == pre.bbox,
                node.is_octree == oct,
                node.bucket_capacity == cap,
                oct == pre.is_octree,
                cap == pre.bucket_capacity,
            decreases old_items@.len(),
        {
            let ghost rem0 = old_items@;
            let item = old_items.remove(0);
            proof {
                lemma_items_ms_remove0(rem0);
            }
            let fit = find_fitting_child(&kids, &item);
            if fit < kids.len() {
                proof {
                    lemma_nodes_wf_forall(kids@, 0, oct, cap);
                }
                let ghost kids1 = kids@;
                let mut ch = kids.remove(fit);
                let ghost ch0 = ch;
                let ghost chitems = ch.items@;
                ch.items.push(item);
                proof {
                    lemma_items_ms_push(chitems, item);
                }
                kids.insert(fit, ch);
                proof {
                    assert(kids@ =~= kids1.update(fit as int, kids@[fit as int]));
                    assert(contents(kids@[fit as int]) =~= contents(ch0).insert(item@));
                    lemma_nodes_contents_update(
                        kids1,
                        kids@,
                        fit as int,
                        Multiset::singleton(item@),
                        0,
                    );
                    assert(wf(kids@[fit as int]));
                    lemma_nodes_wf_build(kids@, 0, oct, cap);
                }
            } else {
                let ghost ns = node.items@;
                node.items.push(item);
                proof {
                    lemma_items_ms_push(ns, item);
                }
            }
        }
        node.child_nodes = Some(kids);
        proof {
            assert(items_ms(old_items@) =~= Multiset::<ObjView>::empty());
            assert(contents(*node) =~= m0);
            assert(contents(*node) =~= contents(pre));
            assert(wf(*node));
        }
    }
    // The node has children now: hand the primitive to the first child that
    // wholly contains it, else keep it here if the bucket has room.
    let ghost mid_node = *node;
    proof {
        assert(wf(mid_node));
        assert(contents(mid_node) =~= contents(pre));
        if pre.child_nodes is Some {
            assert(mid_node == pre);
        }
    }
    let ghost oct = node.is_octree;
    let ghost cap = node.bucket_capacity;
    let mut kids = node.child_nodes.take().unwrap();
    proof {
        lemma_nodes_wf_forall(kids@, 0, oct, cap);
    }
    let fit = find_fitting_child(&kids, &obj);
    let r: Result<(), QuadOctreeError>;
    let ghost kids1 = kids@;
    proof {
        assert(child_seq(mid_node) == kids1);
    }
    if fit < kids.len() && fuel > 0 {
        let mut ch = kids.remove(fit);
        let ghost ch0 = ch;
        let r2 = insert_fueled(&mut ch, obj, fuel - 1);
        let ghost chf = ch;
        kids.insert(fit, ch);
        node.child_nodes = Some(kids);
        proof {
            let ks = child_seq(*node);
            assert(ks =~= kids1.update(fit as int, chf));
            assert(ks[fit as int] == chf);
            if r2 is Ok {
                lemma_nodes_contents_update(kids1, ks, fit as int, Multiset::singleton(obj@), 0);
                assert(contents(*node) =~= contents(mid_node).insert(obj@));
                assert(contents(*node) =~= contents(pre).insert(obj@));
            } else {
                assert(contents(ks[fit as int]) =~= contents(ch0).add(
                    Multiset::<ObjView>::empty(),
                ));
                lemma_nodes_contents_update(kids1, ks, fit as int, Multiset::empty(), 0);
                assert(contents(*node) =~= contents(mid_node));
                assert(contents(*node) =~= contents(pre));
                // A full child implies this whole subtree already held at
                // least a bucketful.
                lemma_nodes_contents_le(kids1, 0, fit as int);
                assert(contents(ch0).len() >= cap);
                assert(contents(mid_node).len() >= cap);
            }
            lemma_nodes_wf_build(ks, 0, oct, cap);
            assert(wf(*node));
            // Only the child that received the primitive changed.
            if pre.child_nodes is Some {
                lemma_children_preserved_update(kids1, ks, fit as int, 0);
                assert(preserves_structure(pre, *node));
            } else {
                assert(preserves_structure(pre, *node));
            }
            // The primitive now sits at the end of a first-fit descent.
            assert(chf.bbox == ch0.bbox);
            if r2 is Ok {
                lemma_placed_at_lift(*node, fit as int, obj@, fuel as int);
            } else {
                lemma_blocked_at_lift(*node, fit as int, obj@, fuel as int);
            }
            if pre.child_nodes is Some {
                assert(node.items@ == pre.items@);
                assert(touched_along(kids1[fit as int], ks[fit as int], obj));
                assert(touched_along(pre, *node, obj));
            } else {
                assert(touched_along(pre, *node, obj));
            }
        }
        r = r2;
    } else {
        if node.items.len() < node.bucket_capacity {
            let ghost before = node.items@;
            node.items.push(obj);
            proof {
                lemma_items_ms_push(before, obj);
            }
            r = Ok(());
        } else {
            proof {
                assert(own_contents(mid_node).len() == mid_node.items@.len());
                assert(contents(mid_node).len() >= cap);
            }
            r = Err(QuadOctreeError::BucketFull);
        }
        node.child_nodes = Some(kids);
        proof {
            assert(child_seq(*node) == kids1);
            if r is Ok {
                assert(contents(*node) =~= contents(mid_node).insert(obj@));
                assert(contents(*node) =~= contents(pre).insert(obj@));
            } else {
                assert(contents(*node) =~= contents(mid_node));
                assert(contents(*node) =~= contents(pre));
            }
            assert(wf(*node));
            if pre.child_nodes is Some {
                lemma_children_preserved_refl(kids1, 0);
                assert(preserves_structure(pre, *node));
            } else {
                assert(preserves_structure(pre, *node));
            }
            // The descent stopped here: no child fits, or the bound is out.
            assert(fits_no_child(*node, obj@) || 0 >= fuel as int) by {
                if fuel > 0 {
                    assert(fit as int >= kids1.len());
                }
            }
            if r is Ok {
                assert(node.items@.last() == obj);
                lemma_placed_here(*node, obj@, fuel as int);
            } else {
                lemma_blocked_here(*node, obj@, fuel as int);
            }
            if pre.child_nodes is Some {
                assert(child_seq(*node) == child_seq(pre));
                assert(touched_along(pre, *node, obj));
            } else {
                assert(touched_along(pre, *node, obj));
            }
        }
    }
    r
}

/// The node reached from `t` by following the child indices of `path`; an
/// index out of range stops the walk where it is.
pub open spec fn node_at(t: QuadOctreeNode, path: Seq<int>) -> QuadOctreeNode
    decreases path.len(),
{
    if path.len() == 0 {
        t
    } else if 0 <= path[0] < child_seq(t).len() {
        node_at(child_seq(t)[path[0]], path.drop_first())
    } else {
        t
    }
}

/// `path` descends from `t` picking, at every level, the first child in
/// fixed order whose box wholly contains `obj`.
pub open spec fn first_fit_path(t: QuadOctreeNode, path: Seq<int>, obj: ObjView) -> bool
    decreases path.len(),
{
    path.len() == 0 || {
        &&& 0 <= path[0] < child_seq(t).len()
        &&& obj_in_bbox(child_seq(t)[path[0]].bbox, obj)
        &&& (forall|k: int| 0 <= k < path[0] ==> !obj_in_bbox(child_seq(t)[k].bbox, obj))
        &&& first_fit_path(child_seq(t)[path[0]], path.drop_first(), obj)
    }
}

/// No child of `n` wholly contains `obj`.
pub open spec fn fits_no_child(n: QuadOctreeNode, obj: ObjView) -> bool {
    forall|k: int| 0 <= k < child_seq(n).len() ==> !obj_in_bbox(child_seq(n)[k].bbox, obj)
}

/// Where a successful insertion left the primitive: at the end of the bucket
/// of the node reached by the first-fit descent, which stopped where no
/// child contains the primitive — or, only past `bound` levels, where the
/// insertion's descent bound ran out.
pub open spec fn placed_at(t: QuadOctreeNode, obj: ObjView, bound: int) -> bool {
    exists|path: Seq<int>|
        {
            &&& #[trigger] first_fit_path(t, path, obj)
            &&& (fits_no_child(node_at(t, path), obj) || path.len() >= bound)
            &&& node_at(t, path).items@.len() > 0
            &&& node_at(t, path).items@.last()@ == obj
        }
}

/// Where a failed insertion got stuck: the first-fit descent reached a node
/// that cannot delegate the primitive (or, only past `bound` levels, the
/// descent bound ran out) and whose own bucket is already at capacity.
pub open spec fn blocked_at(t: QuadOctreeNode, obj: ObjView, bound: int) -> bool {
    exists|path: Seq<int>|
        {
            &&& #[trigger] first_fit_path(t, path, obj)
            &&& (fits_no_child(node_at(t, path), obj) || path.len() >= bound)
            &&& node_at(t, path).items@.len() >= node_at(t, path).bucket_capacity
        }
}

/// `t2` preserves the structure of `t1`: same box, mode and capacity, and
/// wherever `t1` has children, `t2` has the same number of children, each
/// preserving the corresponding child — nodes are only ever created (by
/// subdividing a leaf), never destroyed or merged.
pub open spec fn preserves_structure(t1: QuadOctreeNode, t2: QuadOctreeNode) -> bool
    decreases t1, 0int,
{
    &&& t2.bbox == t1.bbox
    &&& t2.is_octree == t1.is_octree
    &&& t2.bucket_capacity == t1.bucket_capacity
    &&& match t1.child_nodes {
        Some(v1) => match t2.child_nodes {
            Some(v2) => v1@.len() == v2@.len() && children_preserved(v1@, v2@, 0),
            None => false,
        },
        None => true,
    }
}

/// Pointwise structure preservation of a child run from index `i` on.
pub open spec fn children_preserved(s1: Seq<QuadOctreeNode>, s2: Seq<QuadOctreeNode>, i: int) -> bool
    decreases s1, s1.len() - i,
{
    if 0 <= i < s1.len() {
        &&& i < s2.len()
        &&& preserves_structure(s1[i], s2[i])
        &&& children_preserved(s1, s2, i + 1)
    } else {
        true
    }
}

/// One insertion touches a single path: at every level either nothing
/// changed, or exactly one child changed (itself along a single path), or
/// this node's bucket gained exactly the inserted primitive at its end with
/// the children untouched. Below a leaf that the insertion subdivided the
/// relation asks nothing more — there the multiset and placement clauses
/// pin what the split may do.
pub open spec fn touched_along(t1: QuadOctreeNode, t2: QuadOctreeNode, obj: CollisionObj) -> bool
    decreases t1, 0int,
{
    match t1.child_nodes {
        None => match t2.child_nodes {
            None => t2.items@ == t1.items@ || t2.items@ == t1.items@.push(obj),
            Some(_) => true,
        },
        Some(v1) => match t2.child_nodes {
            Some(v2) => v1@.len() == v2@.len() && {
                ||| (t2.items@ == t1.items@ && v2@ == v1@)
                ||| (t2.items@ == t1.items@ && exists|j: int|
                    0 <= j < v1@.len() && (forall|k: int|
                        0 <= k < v1@.len() && k != j ==> v2@[k] == v1@[k]) && touched_along(
                        #[trigger] v1@[j],
                        v2@[j],
                        obj,
                    ))
                ||| (t2.items@ == t1.items@.push(obj) && v2@ == v1@)
            },
            None => false,
        },
    }
}

/// Every tree preserves its own structure.
proof fn lemma_preserves_refl(t: QuadOctreeNode)
    ensures
        preserves_structure(t, t),
    decreases t, 0int,
{
    match t.child_nodes {
        Some(v) => {
            lemma_children_preserved_refl(v@, 0);
        },
        None => {},
    }
}

/// A child run preserves itself.
proof fn lemma_children_preserved_refl(s: Seq<QuadOctreeNode>, i: int)
    ensures
        children_preserved(s, s, i),
    decreases s, s.len() - i,
{
    if 0 <= i < s.len() {
        lemma_preserves_refl(s[i]);
        lemma_children_preserved_refl(s, i + 1);
    }
}

/// A run that changed at one position, preservingly, is preserved.
proof fn lemma_children_preserved_update(
    s1: Seq<QuadOctreeNode>,
    s2: Seq<QuadOctreeNode>,
    j: int,
    i: int,
)
    requires
        s1.len() == s2.len(),
        0 <= j < s1.len(),
        forall|k: int| 0 <= k < s1.len() && k != j ==> s2[k] == s1[k],
        preserves_structure(s1[j], s2[j]),
        0 <= i,
    ensures
        children_preserved(s1, s2, i),
    decreases s1.len() - i,
{
    if 0 <= i < s1.len() {
        if i != j {
            lemma_preserves_refl(s1[i]);
        }
        lemma_children_preserved_update(s1, s2, j, i + 1);
    }
}

/// Structure preservation composes.
pub proof fn lemma_preserves_trans(t1: QuadOctreeNode, t2: QuadOctreeNode, t3: QuadOctreeNode)
    requires
        preserves_structure(t1, t2),
        preserves_structure(t2, t3),
    ensures
        preserves_structure(t1, t3),
    decreases t1, 0int,
{
    match t1.child_nodes {
        Some(v1) => {
            let v2 = t2.child_nodes->0;
            let v3 = t3.child_nodes->0;
            lemma_children_preserved_trans(v1@, v2@, v3@, 0);
        },
        None => {},
    }
}

/// Pointwise composition of preserved child runs.
proof fn lemma_children_preserved_trans(
    s1: Seq<QuadOctreeNode>,
    s2: Seq<QuadOctreeNode>,
    s3: Seq<QuadOctreeNode>,
    i: int,
)
    requires
        s1.len() == s2.len(),
        s2.len() == s3.len(),
        children_preserved(s1, s2, i),
        children_preserved(s2, s3, i),
        0 <= i,
    ensures
        children_preserved(s1, s3, i),
    decreases s1, s1.len() - i,
{
    if 0 <= i < s1.len() {
        lemma_preserves_trans(s1[i], s2[i], s3[i]);
        lemma_children_preserved_trans(s1, s2, s3, i + 1);
    }
}

/// An empty descent ending in a full-bucket node that cannot delegate.
proof fn lemma_blocked_here(t: QuadOctreeNode, obj: ObjView, bound: int)
    requires
        fits_no_child(t, obj) || 0 >= bound,
        t.items@.len() >= t.bucket_capacity,
    ensures
        blocked_at(t, obj, bound),
{
    let path = Seq::<int>::empty();
    assert(first_fit_path(t, path, obj));
    assert(node_at(t, path) == t);
}

/// An empty descent ending where the primitive was appended.
proof fn lemma_placed_here(t: QuadOctreeNode, obj: ObjView, bound: int)
    requires
        fits_no_child(t, obj) || 0 >= bound,
        t.items@.len() > 0,
        t.items@.last()@ == obj,
    ensures
        placed_at(t, obj, bound),
{
    let path = Seq::<int>::empty();
    assert(first_fit_path(t, path, obj));
    assert(node_at(t, path) == t);
}

/// A placement below the first fitting child is a placement below the
/// parent, one level deeper.
proof fn lemma_placed_at_lift(parent: QuadOctreeNode, j: int, obj: ObjView, bound: int)
    requires
        0 <= j < child_seq(parent).len(),
        obj_in_bbox(child_seq(parent)[j].bbox, obj),
        forall|k: int| 0 <= k < j ==> !obj_in_bbox(child_seq(parent)[k].bbox, obj),
        placed_at(child_seq(parent)[j], obj, bound - 1),
    ensures
        placed_at(parent, obj, bound),
{
    let c = child_seq(parent)[j];
    let p2 = choose|p2: Seq<int>|
        {
            &&& #[trigger] first_fit_path(c, p2, obj)
            &&& (fits_no_child(node_at(c, p2), obj) || p2.len() >= bound - 1)
            &&& node_at(c, p2).items@.len() > 0
            &&& node_at(c, p2).items@.last()@ == obj
        };
    let path = seq![j] + p2;
    assert(path[0] == j);
    assert(path.drop_first() =~= p2);
    assert(first_fit_path(parent, path, obj));
    assert(node_at(parent, path) == node_at(c, p2));
}

/// A blocked descent below the first fitting child is a blocked descent
/// below the parent, one level deeper.
proof fn lemma_blocked_at_lift(parent: QuadOctreeNode, j: int, obj: ObjView, bound: int)
    requires
        0 <= j < child_seq(parent).len(),
        obj_in_bbox(child_seq(parent)[j].bbox, obj),
        forall|k: int| 0 <= k < j ==> !obj_in_bbox(child_seq(parent)[k].bbox, obj),
        blocked_at(child_seq(parent)[j], obj, bound - 1),
    ensures
        blocked_at(parent, obj, bound),
{
    let c = child_seq(parent)[j];
    let p2 = choose|p2: Seq<int>|
        {
            &&& #[trigger] first_fit_path(c, p2, obj)
            &&& (fits_no_child(node_at(c, p2), obj) || p2.len() >= bound - 1)
            &&& node_at(c, p2).items@.len() >= node_at(c, p2).bucket_capacity
        };
    let path = seq![j] + p2;
    assert(path[0] == j);
    assert(path.drop_first() =~= p2);
    assert(first_fit_path(parent, path, obj));
    assert(node_at(parent, path) == node_at(c, p2));
}

/// The views of a bucket's primitives, in bucket order.
pub open spec fn items_views(s: Seq<CollisionObj>) -> Seq<ObjView> {
    s.map_values(|o: CollisionObj| o@)
}

/// The traversal's visit order below the nodes of `s` from index `i` on, for
/// a query point `p`: each child whose box contains `p` contributes its own
/// visit order, in child order.
pub open spec fn visited_kids_from(s: Seq<QuadOctreeNode>, p: Seq<u32>, i: int) -> Seq<ObjView>
    decreases s, s.len() - i,
{
    if 0 <= i < s.len() {
        (if point_in_bbox(s[i].bbox, p) {
            visited(s[i], p)
        } else {
            Seq::empty()
        }) + visited_kids_from(s, p, i + 1)
    } else {
        Seq::empty()
    }
}

/// The traversal's visit order at `node` for a query point `p`: first the
/// primitives below every child whose box contains `p`, then the node's own
/// bucket.
pub open spec fn visited(node: QuadOctreeNode, p: Seq<u32>) -> Seq<ObjView>
    decreases node, 0int,
{
    match node.child_nodes {
        Some(v) => visited_kids_from(v@, p, 0) + items_views(node.items@),
        None => items_views(node.items@),
    }
}

/// A visitor walked over the tree's primitives. Its exec state is abstracted
/// by a model, and one call of `visit` performs exactly one `step_model` on
/// it; the returned flag asks the traversal to stop.
pub trait TreeVisitor: Sized {
    /// The abstract state the visitor's contract is written over.
    type Model;

    /// The model of the current exec state.
    spec fn model(&self) -> Self::Model;

    /// What one visit does to the model, and whether it stops the walk.
    spec fn step_model(pre: Self::Model, obj: ObjView) -> (Self::Model, bool);

    /// Visit one primitive.
    fn visit(&mut self, obj: &CollisionObj) -> (stop: bool)
        ensures
            final(self).model() == Self::step_model(old(self).model(), obj@).0,
            stop == Self::step_model(old(self).model(), obj@).1,
    ;
}

/// The result of running a visitor over a whole visit order, stopping at the
/// first step that asks to.
pub open spec fn run_visitor<V: TreeVisitor>(m: V::Model, objs: Seq<ObjView>) -> (V::Model, bool)
    decreases objs.len(),
{
    if objs.len() == 0 {
        (m, false)
    } else {
        let stepped = V::step_model(m, objs[0]);
        if stepped.1 {
            (stepped.0, true)
        } else {
            run_visitor::<V>(stepped.0, objs.drop_first())
        }
    }
}

/// Running over a concatenation: a stop in the first part ends the run, and
/// otherwise the run continues through the second part.
proof fn lemma_run_concat<V: TreeVisitor>(m: V::Model, s1: Seq<ObjView>, s2: Seq<ObjView>)
    ensures
        run_visitor::<V>(m, s1).1 ==> run_visitor::<V>(m, s1 + s2) == run_visitor::<V>(m, s1),
        !run_visitor::<V>(m, s1).1 ==> run_visitor::<V>(m, s1 + s2) == run_visitor::<V>(
            run_visitor::<V>(m, s1).0,
            s2,
        ),
    decreases s1.len(),
{
    if s1.len() == 0 {
        assert(s1 + s2 =~= s2);
    } else {
        let stepped = V::step_model(m, s1[0]);
        assert((s1 + s2)[0] == s1[0]);
        assert((s1 + s2).drop_first() =~= s1.drop_first() + s2);
        if !stepped.1 {
            lemma_run_concat::<V>(stepped.0, s1.drop_first(), s2);
        }
    }
}

/// Walk the tree at a query point: descend into every child whose box
/// contains the point, in order, then hand the node's own primitives to the
/// visitor; stop the moment the visitor asks to. Returns whether the walk
/// was stopped.
pub fn traverse_quadoctree<V: TreeVisitor>(
    node: &QuadOctreeNode,
    vertex: &[u32; 3],
    check_func: &mut V,
) -> (r: bool)
    ensures
        final(check_func).model() == run_visitor::<V>(old(check_func).model(), visited(
            *node,
            vertex@,
        )).0,
        r == run_visitor::<V>(old(check_func).model(), visited(*node, vertex@)).1,
    decreases *node,
{
    let ghost m0 = check_func.model();
    let ghost full = visited(*node, vertex@);
    let ghost p = vertex@;
    match &node.child_nodes {
        Some(cv) => {
            let mut i: usize = 0;
            while i < cv.len()
                invariant
                    i <= cv@.len(),
                    cv@ == child_seq(*node),
                    node.child_nodes is Some,
                    full == visited(*node, p),
                    p == vertex@,
                    m0 == old(check_func).model(),
                    run_visitor::<V>(m0, full) == run_visitor::<V>(
                        check_func.model(),
                        visited_kids_from(cv@, p, i as int) + items_views(node.items@),
                    ),
                decreases cv@.len() - i,
            {
                let ghost mpre = check_func.model();
                let ghost seg = if point_in_bbox(cv@[i as int].bbox, p) {
                    visited(cv@[i as int], p)
                } else {
                    Seq::<ObjView>::empty()
                };
                let ghost rest = visited_kids_from(cv@, p, i as int + 1) + items_views(
                    node.items@,
                );
                proof {
                    assert(visited_kids_from(cv@, p, i as int) + items_views(node.items@) =~= seg
                        + rest);
                    lemma_run_concat::<V>(mpre, seg, rest);
                }
                if vert_is_in_bbox(&cv[i].bbox, vertex) {
                    if traverse_quadoctree(&cv[i], vertex, check_func) {
                        proof {
                            assert(seg == visited(cv@[i as int], p));
                            assert(run_visitor::<V>(mpre, seg).1);
                            assert(run_visitor::<V>(mpre, seg + rest) == run_visitor::<V>(
                                mpre,
                                seg,
                            ));
                            assert(run_visitor::<V>(m0, full) == run_visitor::<V>(mpre, seg
                                + rest));
                        }
                        return true;
                    }
                }
                i = i + 1;
            }
            proof {
                assert(visited_kids_from(cv@, p, cv@.len() as int) + items_views(node.items@)
                    =~= items_views(node.items@));
                assert(run_visitor::<V>(m0, full) == run_visitor::<V>(
                    check_func.model(),
                    items_views(node.items@),
                ));
            }
        },
        None => {},
    }
    proof {
        assert(items_views(node.items@).skip(0) =~= items_views(node.items@));
        if node.child_nodes is None {
            assert(full == items_views(node.items@));
        }
    }
    let mut t: usize = 0;
    while t < node.items.len()
        invariant
            t <= node.items@.len(),
            full == visited(*node, vertex@),
            m0 == old(check_func).model(),
            run_visitor::<V>(m0, full) == run_visitor::<V>(
                check_func.model(),
                items_views(node.items@).skip(t as int),
            ),
        decreases node.items@.len() - t,
    {
        let ghost mpre = check_func.model();
        let ghost s = items_views(node.items@).skip(t as int);
        proof {
            assert(s.len() == node.items@.len() - t);
            assert(s[0] == node.items@[t as int]@);
            assert(s.drop_first() =~= items_views(node.items@).skip(t as int + 1));
        }
        let stop = check_func.visit(&node.items[t]);
        proof {
            assert(check_func.model() == V::step_model(mpre, s[0]).0);
            assert(stop == V::step_model(mpre, s[0]).1);
            if stop {
                assert(run_visitor::<V>(mpre, s) == (check_func.model(), true));
            }
        }
        if stop {
            return true;
        }
        t = t + 1;
    }
    proof {
        assert(items_views(node.items@).skip(node.items@.len() as int)
            =~= Seq::<ObjView>::empty());
    }
    false
}

/// A visitor that keeps a copy of everything it is shown and never stops the
/// walk: traversing with it collects the whole visit order.
pub struct CollectingVisitor {
    pub objs: Vec<CollisionObj>,
}

impl TreeVisitor for CollectingVisitor {
    type Model = Seq<ObjView>;

    open spec fn model(&self) -> Seq<ObjView> {
        items_views(self.objs@)
    }

    open spec fn step_model(pre: Seq<ObjView>, obj: ObjView) -> (Seq<ObjView>, bool) {
        (pre.push(obj), false)
    }

    fn visit(&mut self, obj: &CollisionObj) -> (stop: bool)
        ensures
            final(self).model() == Self::step_model(old(self).model(), obj@).0,
            stop == Self::step_model(old(self).model(), obj@).1,
    {
        let copy = obj.duplicate();
        let ghost before = self.objs@;
        self.objs.push(copy);
        proof {
            assert(items_views(self.objs@) =~= items_views(before).push(obj@));
        }
        false
    }
}

/// Whether `n` lies on the cell chain of the query point `p` within the tree
/// rooted at `t`: it is `t` itself, or on the chain of a child whose box
/// contains `p`.
pub open spec fn on_cell_chain(t: QuadOctreeNode, p: Seq<u32>, n: QuadOctreeNode) -> bool
    decreases t, 0int,
{
    n == t || (match t.child_nodes {
        Some(v) => exists|i: int|
            0 <= i < v@.len() && point_in_bbox(#[trigger] v@[i].bbox, p) && on_cell_chain(
                v@[i],
                p,
                n,
            ),
        None => false,
    })
}

/// A run of children contains in its visit order everything visited below a
/// contained child.
proof fn lemma_visited_kids_contains(
    s: Seq<QuadOctreeNode>,
    p: Seq<u32>,
    j: int,
    i: int,
    obj: ObjView,
)
    requires
        0 <= j <= i < s.len(),
        point_in_bbox(s[i].bbox, p),
        visited(s[i], p).contains(obj),
    ensures
        visited_kids_from(s, p, j).contains(obj),
    decreases i - j,
{
    if j == i {
        let idx = choose|idx: int| 0 <= idx < visited(s[i], p).len() && visited(s[i], p)[idx]
            == obj;
        assert(visited_kids_from(s, p, j)[idx] == obj);
    } else {
        lemma_visited_kids_contains(s, p, j + 1, i, obj);
        let idx = choose|idx: int|
            0 <= idx < visited_kids_from(s, p, j + 1).len() && #[trigger] visited_kids_from(
                s,
                p,
                j + 1,
            )[idx] == obj;
        let seg = if point_in_bbox(s[j].bbox, p) {
            visited(s[j], p)
        } else {
            Seq::<ObjView>::empty()
        };
        assert(visited_kids_from(s, p, j)[seg.len() + idx] == obj);
    }
}

/// Law: a primitive held by any node on the query point's cell chain appears
/// in the traversal's visit order at that point — traversal loses nothing.
pub proof fn lemma_no_silent_loss(t: QuadOctreeNode, p: Seq<u32>, n: QuadOctreeNode, obj: ObjView)
    requires
        on_cell_chain(t, p, n),
        items_views(n.items@).contains(obj),
    ensures
        visited(t, p).contains(obj),
    decreases t, 1int,
{
    let own = items_views(t.items@);
    if n == t {
        match t.child_nodes {
            Some(v) => {
                let idx = choose|idx: int| 0 <= idx < own.len() && own[idx] == obj;
                assert(visited(t, p)[visited_kids_from(v@, p, 0).len() + idx] == obj);
            },
            None => {},
        }
    } else {
        match t.child_nodes {
            Some(v) => {
                let i = choose|i: int|
                    0 <= i < v@.len() && point_in_bbox(#[trigger] v@[i].bbox, p) && on_cell_chain(
                        v@[i],
                        p,
                        n,
                    );
                lemma_no_silent_loss(v@[i], p, n, obj);
                lemma_visited_kids_contains(v@, p, 0, i, obj);
                let idx = choose|idx: int|
                    0 <= idx < visited_kids_from(v@, p, 0).len() && visited_kids_from(v@, p, 0)[idx]
                        == obj;
                assert(visited(t, p)[idx] == obj);
            },
            None => {},
        }
    }
}

/// Insert one primitive: descend, at every level, into the first child in
/// fixed order that wholly contains it. On overflow the node splits once and
/// re-files its bucket into the new children; a primitive that fits no child
/// stays in the node whose bucket it reached, and `BucketFull` is reported
/// only when that bucket has no room left. The tree afterwards holds exactly
/// the primitives it held before plus the new one, or exactly the old ones
/// on failure, with the new one at the end of the bucket its descent reached
/// (`placed_at`), and no node is ever destroyed or merged
/// (`preserves_structure`). The descent is bounded by the word size, a depth
/// no reachable tree attains.
pub fn insert_quadoctree_item(node: &mut QuadOctreeNode, obj: CollisionObj) -> (r: Result<
    (),
    QuadOctreeError,
>)
    requires
        wf(*old(node)),
    ensures
        wf(*final(node)),
        final(node).bbox == old(node).bbox,
        final(node).is_octree == old(node).is_octree,
        final(node).bucket_capacity == old(node).bucket_capacity,
        r is Ok ==> contents(*final(node)) =~= contents(*old(node)).insert(obj@),
        r is Err ==> contents(*final(node)) =~= contents(*old(node)) && r->Err_0 is BucketFull,
        contents(*old(node)).len() < old(node).bucket_capacity ==> r is Ok,
        preserves_structure(*old(node), *final(node)),
        old(node).child_nodes is None && old(node).items@.len() < old(node).bucket_capacity
            ==> final(node).child_nodes is None
            && final(node).items@ == old(node).items@.push(obj)
            && r is Ok,
        old(node).child_nodes is Some
            ==> final(node).items@ == old(node).items@
            || final(node).items@ == old(node).items@.push(obj),
        r is Ok ==> placed_at(*final(node), obj@, u64::MAX as int),
        r is Err ==> blocked_at(*final(node), obj@, u64::MAX as int),
        touched_along(*old(node), *final(node), obj),
{
    insert_fueled(node, obj, u64::MAX)
}

/// The vertices of a mesh object, gathered in index order.
pub open spec fn gathered_verts(vs: Seq<Vertex>, idxs: Seq<u32>) -> Seq<VertView> {
    idxs.map_values(|i: u32| vs[i as int]@)
}

/// The running componentwise sum of the vertex positions from index `i` on.
pub open spec fn centroid_sum(vs: Seq<Vertex>, i: int, acc: Seq<u32>) -> Seq<u32>
    decreases vs.len() - i,
{
    if 0 <= i < vs.len() {
        centroid_sum(
            vs,
            i + 1,
            seq![
                f_add(acc[0], vs[i]@.position[0]),
                f_add(acc[1], vs[i]@.position[1]),
                f_add(acc[2], vs[i]@.position[2]),
            ],
        )
    } else {
        acc
    }
}

/// The arithmetic mean of a mesh's vertex positions, with rounding at every
/// addition and division.
pub open spec fn centroid_of(vs: Seq<Vertex>) -> Seq<u32> {
    let s = centroid_sum(vs, 0, seq![ZERO_BITS, ZERO_BITS, ZERO_BITS]);
    let n = f_of_usize(vs.len() as int);
    seq![f_div(s[0], n), f_div(s[1], n), f_div(s[2], n)]
}

/// The one polygon primitive a solid mesh object turns into.
pub open spec fn polygon_view(vs: Seq<Vertex>, idxs: Seq<u32>) -> ObjView {
    ObjView::Polygon { verts: gathered_verts(vs, idxs), center: centroid_of(vs) }
}

/// The triangle built from the index triple starting at `idxs[3*t]`.
pub open spec fn tri_view_at(vs: Seq<Vertex>, idxs: Seq<u32>, t: int) -> ObjView {
    ObjView::Triangle {
        pts: seq![
            vs[idxs[3 * t] as int]@.position,
            vs[idxs[3 * t + 1] as int]@.position,
            vs[idxs[3 * t + 2] as int]@.position,
        ],
    }
}

/// The triangles of the index triples `from..to`, as a multiset.
pub open spec fn tris_ms(vs: Seq<Vertex>, idxs: Seq<u32>, from: int, to: int) -> Multiset<ObjView>
    decreases to - from,
{
    if from < to {
        Multiset::singleton(tri_view_at(vs, idxs, from)).add(tris_ms(vs, idxs, from + 1, to))
    } else {
        Multiset::empty()
    }
}

/// A triangle run's size is its triangle count.
proof fn lemma_tris_ms_len(vs: Seq<Vertex>, idxs: Seq<u32>, from: int, to: int)
    requires
        from <= to,
    ensures
        tris_ms(vs, idxs, from, to).len() == to - from,
    decreases to - from,
{
    if from < to {
        lemma_tris_ms_len(vs, idxs, from + 1, to);
    }
}

/// A triangle run grows by one triangle at its end.
proof fn lemma_tris_ms_snoc(vs: Seq<Vertex>, idxs: Seq<u32>, from: int, to: int)
    requires
        from <= to,
    ensures
        tris_ms(vs, idxs, from, to + 1) =~= tris_ms(vs, idxs, from, to).insert(
            tri_view_at(vs, idxs, to),
        ),
    decreases to - from,
{
    if from < to {
        lemma_tris_ms_snoc(vs, idxs, from + 1, to);
    } else {
        assert(tris_ms(vs, idxs, to + 1, to + 1) =~= Multiset::<ObjView>::empty());
        assert(tris_ms(vs, idxs, from, to + 1) =~= Multiset::singleton(
            tri_view_at(vs, idxs, to),
        ).add(Multiset::empty()));
    }
}

/// Feed one mesh object into the tree. A solid object becomes a single
/// polygon primitive over the indexed vertices with the mean of all vertex
/// positions as its centroid; any other mesh becomes one triangle primitive
/// per index triple, inserted independently. A failed insertion aborts the
/// rest but leaves what was already inserted in place.
pub fn add_obj_to_quadoctree(
    octree: &mut QuadOctreeNode,
    vertices: &Vec<Vertex>,
    indices: &Vec<u32>,
    is_collision_mesh: bool,
) -> (r: Result<(), QuadOctreeError>)
    requires
        wf(*old(octree)),
        forall|i: int| 0 <= i < indices@.len() ==> indices@[i] < vertices@.len(),
        !is_collision_mesh ==> indices@.len() % 3 == 0,
    ensures
        wf(*final(octree)),
        final(octree).bbox == old(octree).bbox,
        final(octree).is_octree == old(octree).is_octree,
        final(octree).bucket_capacity == old(octree).bucket_capacity,
        preserves_structure(*old(octree), *final(octree)),
        r is Err ==> r->Err_0 is BucketFull,
        is_collision_mesh ==> {
            &&& (r is Ok ==> contents(*final(octree)) =~= contents(*old(octree)).insert(
                polygon_view(vertices@, indices@),
            ))
            &&& (r is Err ==> contents(*final(octree)) =~= contents(*old(octree)))
            &&& (contents(*old(octree)).len() + 1 <= old(octree).bucket_capacity ==> r is Ok)
        },
        !is_collision_mesh ==> {
            &&& (r is Ok ==> contents(*final(octree)) =~= contents(*old(octree)).add(
                tris_ms(vertices@, indices@, 0, indices@.len() as int / 3),
            ))
            &&& (r is Err ==> exists|k: int|
                0 <= k < indices@.len() as int / 3 && contents(*final(octree)) =~= contents(
                    *old(octree),
                ).add(#[trigger] tris_ms(vertices@, indices@, 0, k)))
            &&& (contents(*old(octree)).len() + indices@.len() / 3
                <= old(octree).bucket_capacity ==> r is Ok)
        },
{
    let ghost pre = *old(octree);
    if is_collision_mesh {
        let mut center: [u32; 3] = [ZERO_BITS, ZERO_BITS, ZERO_BITS];
        let ghost vs = vertices@;
        proof {
            assert(center@ =~= seq![ZERO_BITS, ZERO_BITS, ZERO_BITS]);
        }
        let mut i: usize = 0;
        while i < vertices.len()
            invariant
                i <= vs.len(),
                vs == vertices@,
                centroid_sum(vs, 0, seq![ZERO_BITS, ZERO_BITS, ZERO_BITS]) == centroid_sum(
                    vs,
                    i as int,
                    center@,
                ),
            decreases vs.len() - i,
        {
            let ghost acc = center@;
            center = [
                add_bits(center[0], vertices[i].position[0]),
                add_bits(center[1], vertices[i].position[1]),
                add_bits(center[2], vertices[i].position[2]),
            ];
            proof {
                assert(center@ =~= seq![
                    f_add(acc[0], vs[i as int]@.position[0]),
                    f_add(acc[1], vs[i as int]@.position[1]),
                    f_add(acc[2], vs[i as int]@.position[2]),
                ]);
            }
            i = i + 1;
        }
        let vlen = usize_to_bits(vertices.len());
        let center = [
            div_bits(center[0], vlen),
            div_bits(center[1], vlen),
            div_bits(center[2], vlen),
        ];
        proof {
            assert(center@ =~= centroid_of(vs));
        }
        let mut poly_verts: Vec<Vertex> = Vec::new();
        let mut j: usize = 0;
        while j < indices.len()
            invariant
                j <= indices@.len(),
                vs == vertices@,
                forall|k: int| 0 <= k < indices@.len() ==> indices@[k] < vertices@.len(),
                poly_verts@.len() == j,
                forall|k: int| 0 <= k < j ==> poly_verts@[k] == vertices@[indices@[k] as int],
            decreases indices@.len() - j,
        {
            let idx = indices[j];
            poly_verts.push(vertices[idx as usize]);
            j = j + 1;
        }
        let obj = CollisionObj::Polygon(poly_verts, center);
        proof {
            assert(poly_verts@.map_values(|v: Vertex| v@) =~= gathered_verts(vs, indices@));
            assert(obj@ =~= polygon_view(vertices@, indices@));
        }
        insert_quadoctree_item(octree, obj)
    } else {
        let ghost n_tris = indices@.len() as int / 3;
        proof {
            lemma_preserves_refl(*octree);
        }
        let mut t: usize = 0;
        let mut i: usize = 0;
        while i < indices.len()
            invariant
                pre == *old(octree),
                !is_collision_mesh,
                wf(*octree),
                preserves_structure(pre, *octree),
                octree.bbox == pre.bbox,
                octree.is_octree == pre.is_octree,
                octree.bucket_capacity == pre.bucket_capacity,
                i == 3 * t,
                i <= indices@.len(),
                indices@.len() % 3 == 0,
                n_tris == indices@.len() as int / 3,
                forall|k: int| 0 <= k < indices@.len() ==> indices@[k] < vertices@.len(),
                contents(*octree) =~= contents(pre).add(tris_ms(vertices@, indices@, 0, t as int)),
                contents(pre).len() + n_tris <= pre.bucket_capacity ==> contents(*octree).len()
                    + (n_tris - t) <= pre.bucket_capacity,
            decreases indices@.len() - i,
        {
            let tri = CollisionObj::Triangle([
                vertices[indices[i] as usize].position,
                vertices[indices[i + 1] as usize].position,
                vertices[indices[i + 2] as usize].position,
            ]);
            proof {
                assert(tri@ =~= tri_view_at(vertices@, indices@, t as int));
                lemma_tris_ms_len(vertices@, indices@, 0, t as int);
            }
            let ghost at_loop = *octree;
            let res = insert_quadoctree_item(octree, tri);
            proof {
                lemma_preserves_trans(pre, at_loop, *octree);
            }
            if let Err(e) = res {
                proof {
                    assert(t < n_tris);
                    assert(contents(*octree) =~= contents(pre).add(tris_ms(
                        vertices@,
                        indices@,
                        0,
                        t as int,
                    )));
                }
                return Err(e);
            }
            proof {
                lemma_tris_ms_snoc(vertices@, indices@, 0, t as int);
            }
            t = t + 1;
            i = i + 3;
        }
        proof {
            assert(t as int == n_tris);
        }
        Ok(())
    }
}

} // verus!
