use quadoctree::quadoctree::{add_obj_to_quadoctree, insert_quadoctree_item, traverse_quadoctree,
    vert_is_in_bbox, BoundingBox, CollectingVisitor, CollisionObj, QuadOctreeError,
    QuadOctreeNode, Vertex};

fn tb(x: f32) -> u32 {
    x.to_bits()
}

fn tv(x: f32, y: f32, z: f32) -> [u32; 3] {
    [tb(x), tb(y), tb(z)]
}

fn tri(a: [f32; 3], b: [f32; 3], c: [f32; 3]) -> CollisionObj {
    CollisionObj::Triangle([
        tv(a[0], a[1], a[2]),
        tv(b[0], b[1], b[2]),
        tv(c[0], c[1], c[2]),
    ])
}

fn world() -> BoundingBox {
    BoundingBox { start_pos: tv(-1.0, -1.0, -1.0), end_pos: tv(2.0, 2.0, 2.0) }
}

fn count_tree_items(node: &QuadOctreeNode) -> usize {
    let mut n = node.items.len();
    if let Some(kids) = &node.child_nodes {
        for k in kids {
            n += count_tree_items(k);
        }
    }
    n
}

fn collect_triangle_xs(node: &QuadOctreeNode, out: &mut Vec<u32>) {
    for item in &node.items {
        if let CollisionObj::Triangle(t) = item {
            out.push(t[0][0]);
        }
    }
    if let Some(kids) = &node.child_nodes {
        for k in kids {
            collect_triangle_xs(k, out);
        }
    }
}

#[test]
fn end_corner_is_outside() {
    let bbox = world();
    // A point exactly on the `end` corner along one axis is never contained.
    assert!(!vert_is_in_bbox(&bbox, &tv(2.0, 0.0, 0.0)));
    assert!(!vert_is_in_bbox(&bbox, &tv(0.0, 2.0, 0.0)));
    assert!(!vert_is_in_bbox(&bbox, &tv(0.0, 0.0, 2.0)));
    // The `start` corner is contained: the box is half-open.
    assert!(vert_is_in_bbox(&bbox, &tv(-1.0, -1.0, -1.0)));
    assert!(vert_is_in_bbox(&bbox, &tv(0.0, 0.0, 0.0)));
}

#[test]
fn single_insert_fills_bucket_without_split() {
    let mut tree = QuadOctreeNode::new_tree(world(), false, 1);
    let t = tri([0.0, 0.0, 0.0], [1.0, 0.0, 0.0], [0.0, 0.0, 1.0]);
    assert!(insert_quadoctree_item(&mut tree, t).is_ok());
    // The bucket had room, so the first insertion appends to this node's
    // own bucket and does not yet subdivide.
    assert!(!tree.has_children());
    assert_eq!(tree.own_item_count(), 1);
    assert!(matches!(tree.items[0], CollisionObj::Triangle(_)));
}

#[test]
fn overflow_triggers_exactly_one_subdivision() {
    // Bucket capacity 1: the second insertion overflows the root, which
    // subdivides once and re-files both triangles into child quadrants.
    let mut tree = QuadOctreeNode::new_tree(world(), false, 1);
    let a = tri([0.0, 0.0, 0.0], [0.2, 0.0, 0.0], [0.0, 0.0, 0.2]);
    let b = tri([1.0, 0.0, 1.0], [1.2, 0.0, 1.0], [1.0, 0.0, 1.2]);
    assert!(insert_quadoctree_item(&mut tree, a).is_ok());
    assert!(!tree.has_children());
    assert!(insert_quadoctree_item(&mut tree, b).is_ok());
    assert!(tree.has_children());
    let kids = tree.child_nodes.as_ref().unwrap();
    assert_eq!(kids.len(), 4);
    for k in kids {
        assert!(k.child_nodes.is_none());
    }
    assert_eq!(tree.items.len(), 0);
    assert_eq!(count_tree_items(&tree), 2);
    // First-fit placement: `a` sits in the low-x low-z quadrant, `b` in the
    // high-x high-z quadrant, and the other quadrants stay empty.
    assert_eq!(kids[0].items.len(), 1);
    assert!(matches!(kids[0].items[0], CollisionObj::Triangle(t) if t[0][0] == tb(0.0)));
    assert_eq!(kids[1].items.len(), 0);
    assert_eq!(kids[2].items.len(), 0);
    assert_eq!(kids[3].items.len(), 1);
    assert!(matches!(kids[3].items[0], CollisionObj::Triangle(t) if t[0][0] == tb(1.0)));
}

#[test]
fn point_lies_in_exactly_one_child_box() {
    // Force a subdivision, then check the half-open partition: every sample
    // point of the world box is contained by exactly one child box, the
    // midpoint plane belonging to the upper half.
    let mut tree = QuadOctreeNode::new_tree(world(), false, 1);
    let a = tri([0.0, 0.0, 0.0], [0.2, 0.0, 0.0], [0.0, 0.0, 0.2]);
    let b = tri([1.0, 0.0, 1.0], [1.2, 0.0, 1.0], [1.0, 0.0, 1.2]);
    insert_quadoctree_item(&mut tree, a).unwrap();
    insert_quadoctree_item(&mut tree, b).unwrap();
    let kids = tree.child_nodes.as_ref().unwrap();
    let samples = [
        [0.0f32, 0.0, 0.0],
        [-1.0, -1.0, -1.0],
        [0.5, 0.0, 0.0],
        [0.0, 0.0, 0.5],
        [0.5, 1.9, 0.5],
        [1.99, -0.99, 0.49],
    ];
    for sp in samples.iter() {
        let p = tv(sp[0], sp[1], sp[2]);
        assert!(vert_is_in_bbox(&tree.bbox, &p));
        let containing = kids.iter().filter(|k| vert_is_in_bbox(&k.bbox, &p)).count();
        assert_eq!(containing, 1);
    }
}

#[test]
fn subdivision_preserves_the_primitive_multiset() {
    let mut tree = QuadOctreeNode::new_tree(world(), false, 2);
    let xs = [0.0f32, 0.125, 0.25, 0.375, 1.0, 1.125];
    for (i, x) in xs.iter().enumerate() {
        let z = if i % 2 == 0 { 0.0 } else { 1.0 };
        let t = tri([*x, 0.0, z], [*x + 0.05, 0.0, z], [*x, 0.0, z + 0.05]);
        assert!(insert_quadoctree_item(&mut tree, t).is_ok());
    }
    // Splits happened: the root can hold at most 2 primitives itself.
    assert!(tree.has_children());
    let mut seen: Vec<u32> = Vec::new();
    collect_triangle_xs(&tree, &mut seen);
    let mut expected: Vec<u32> = xs.iter().map(|x| x.to_bits()).collect();
    seen.sort();
    expected.sort();
    assert_eq!(seen, expected);
}

#[test]
fn bucket_full_is_reported_when_nothing_fits() {
    // Both triangles straddle the midpoint plane at x = 0.5, so neither fits
    // any child; with capacity 1 the second insertion must fail.
    let mut tree = QuadOctreeNode::new_tree(world(), false, 1);
    let a = tri([0.4, 0.0, 0.0], [0.6, 0.0, 0.0], [0.4, 0.0, 0.1]);
    let b = tri([0.4, 0.5, 0.0], [0.6, 0.5, 0.0], [0.4, 0.5, 0.1]);
    assert!(insert_quadoctree_item(&mut tree, a).is_ok());
    let res = insert_quadoctree_item(&mut tree, b);
    assert!(matches!(res, Err(QuadOctreeError::BucketFull)));
    // The failed primitive was not added.
    assert_eq!(count_tree_items(&tree), 1);
}

#[test]
fn traversal_discovers_inserted_primitives() {
    let mut tree = QuadOctreeNode::new_tree(world(), true, 1);
    let a = tri([0.0, 0.0, 0.0], [0.1, 0.0, 0.0], [0.0, 0.0, 0.1]);
    let b = tri([1.0, 1.0, 1.0], [1.1, 1.0, 1.0], [1.0, 1.0, 1.1]);
    assert!(insert_quadoctree_item(&mut tree, a).is_ok());
    assert!(insert_quadoctree_item(&mut tree, b).is_ok());
    // The overflow split the root; the triangles sit in different octants.
    assert!(tree.has_children());
    // A query point in the first triangle's cell chain discovers it.
    let mut visitor = CollectingVisitor { objs: Vec::new() };
    let stopped = traverse_quadoctree(&tree, &tv(0.05, 0.0, 0.05), &mut visitor);
    assert!(!stopped);
    assert_eq!(visitor.objs.len(), 1);
    // So does one in the second's.
    let mut other = CollectingVisitor { objs: Vec::new() };
    traverse_quadoctree(&tree, &tv(1.05, 1.0, 1.05), &mut other);
    assert_eq!(other.objs.len(), 1);
    // A query point in an empty octant sees nothing.
    let mut far = CollectingVisitor { objs: Vec::new() };
    traverse_quadoctree(&tree, &tv(-0.9, 1.9, -0.9), &mut far);
    assert_eq!(far.objs.len(), 0);
}

#[test]
fn triangle_mesh_ingestion_builds_one_triangle_per_triple() {
    let mut tree = QuadOctreeNode::new_tree(world(), false, 300);
    let positions = [
        [0.0f32, 0.0, 0.0],
        [0.3, 0.0, 0.0],
        [0.0, 0.0, 0.3],
        [1.0, 0.5, 1.0],
    ];
    let vertices: Vec<Vertex> = positions
        .iter()
        .map(|p| Vertex { position: tv(p[0], p[1], p[2]), normal: tv(0.0, 1.0, 0.0) })
        .collect();
    let indices: Vec<u32> = vec![0, 1, 2, 1, 3, 2];
    assert!(add_obj_to_quadoctree(&mut tree, &vertices, &indices, false).is_ok());
    assert_eq!(count_tree_items(&tree), 2);
}

#[test]
fn solid_mesh_ingestion_builds_one_polygon_with_mean_centroid() {
    let mut tree = QuadOctreeNode::new_tree(world(), false, 300);
    let positions = [[0.1f32, 0.2, 0.3], [0.5, 0.6, 0.7], [0.9, 1.0, 1.1]];
    let vertices: Vec<Vertex> = positions
        .iter()
        .map(|p| Vertex { position: tv(p[0], p[1], p[2]), normal: tv(1.0, 0.0, 0.0) })
        .collect();
    let indices: Vec<u32> = vec![0, 1, 2];
    assert!(add_obj_to_quadoctree(&mut tree, &vertices, &indices, true).is_ok());
    assert_eq!(count_tree_items(&tree), 1);
    let mut found = false;
    for item in &tree.items {
        if let CollisionObj::Polygon(vs, center) = item {
            assert_eq!(vs.len(), 3);
            let mut sum = [0.0f32, 0.0, 0.0];
            for p in positions.iter() {
                sum[0] += p[0];
                sum[1] += p[1];
                sum[2] += p[2];
            }
            let n = positions.len() as f32;
            assert_eq!(*center, [
                (sum[0] / n).to_bits(),
                (sum[1] / n).to_bits(),
                (sum[2] / n).to_bits(),
            ]);
            found = true;
        }
    }
    assert!(found);
}

struct FirstHitVisitor {
    seen: usize,
}

impl quadoctree::quadoctree::TreeVisitor for FirstHitVisitor {
    type Model = ();

    fn model(&self) -> () {
        ()
    }

    fn step_model(_pre: (), _obj: quadoctree::quadoctree::ObjView) -> ((), bool) {
        ((), true)
    }

    fn visit(&mut self, _obj: &CollisionObj) -> bool {
        self.seen += 1;
        true
    }
}

#[test]
fn traversal_stops_when_the_visitor_asks() {
    let mut tree = QuadOctreeNode::new_tree(world(), false, 300);
    for i in 0..3 {
        let x = i as f32 * 0.01;
        let t = tri([x, 0.0, 0.0], [x + 0.005, 0.0, 0.0], [x, 0.0, 0.005]);
        assert!(insert_quadoctree_item(&mut tree, t).is_ok());
    }
    let mut visitor = FirstHitVisitor { seen: 0 };
    let stopped = traverse_quadoctree(&tree, &tv(0.0, 0.0, 0.0), &mut visitor);
    assert!(stopped);
    assert_eq!(visitor.seen, 1);
}

#[test]
fn fps_counter_counts_and_resets() {
    let mut counter = quadoctree::fps_count::DebugFPSCounter::new(true);
    assert!(counter.enabled);
    assert_eq!(counter.frames_in_period, 0);
    assert_eq!(counter.update(false), None);
    assert_eq!(counter.update(false), None);
    assert_eq!(counter.update(true), Some(3));
    assert_eq!(counter.frames_in_period, 0);
    let mut off = quadoctree::fps_count::DebugFPSCounter::new(false);
    assert_eq!(off.update(true), None);
    assert_eq!(off.frames_in_period, 0);
}
