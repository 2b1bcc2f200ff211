use quadoctree::collision::{check_player_collision, ground_height_at, moller_trumbore,
    mult_matrix, mult_matrix3, sat_polypoly};
use quadoctree::quadoctree::{insert_quadoctree_item, BoundingBox, CollisionObj, QuadOctreeNode,
    Vertex};

fn cb(x: f32) -> u32 {
    x.to_bits()
}

fn cv(x: f32, y: f32, z: f32) -> [u32; 3] {
    [cb(x), cb(y), cb(z)]
}

fn cworld() -> BoundingBox {
    BoundingBox { start_pos: cv(-8.0, -8.0, -8.0), end_pos: cv(8.0, 8.0, 8.0) }
}

/// An axis-aligned box as 24 vertices: each face contributes its 4 corners,
/// each carrying that face's outward normal.
fn box_vertices(cx: f32, cy: f32, cz: f32, h: f32) -> Vec<Vertex> {
    let mut out = Vec::new();
    let normals: [[f32; 3]; 6] = [
        [1.0, 0.0, 0.0],
        [-1.0, 0.0, 0.0],
        [0.0, 1.0, 0.0],
        [0.0, -1.0, 0.0],
        [0.0, 0.0, 1.0],
        [0.0, 0.0, -1.0],
    ];
    for n in normals.iter() {
        for &(u, v) in [(-1.0f32, -1.0f32), (-1.0, 1.0), (1.0, -1.0), (1.0, 1.0)].iter() {
            let p = if n[0] != 0.0 {
                [cx + n[0] * h, cy + u * h, cz + v * h]
            } else if n[1] != 0.0 {
                [cx + u * h, cy + n[1] * h, cz + v * h]
            } else {
                [cx + u * h, cy + v * h, cz + n[2] * h]
            };
            out.push(Vertex {
                position: cv(p[0], p[1], p[2]),
                normal: cv(n[0], n[1], n[2]),
            });
        }
    }
    out
}

fn box_obj(cx: f32, cy: f32, cz: f32, h: f32) -> CollisionObj {
    CollisionObj::Polygon(box_vertices(cx, cy, cz, h), cv(cx, cy, cz))
}

#[test]
fn overlap_disjoint_boxes_is_none() {
    let a = box_vertices(0.0, 0.0, 0.0, 1.0);
    let b = box_vertices(3.5, 0.0, 0.0, 1.0);
    let r = sat_polypoly(&a, &cv(0.0, 0.0, 0.0), &b, &cv(3.5, 0.0, 0.0));
    assert!(r.is_none());
}

#[test]
fn overlap_by_half_gives_half_push_toward_second() {
    let a = box_vertices(0.0, 0.0, 0.0, 1.0);
    let b = box_vertices(1.5, 0.0, 0.0, 1.0);
    let r = sat_polypoly(&a, &cv(0.0, 0.0, 0.0), &b, &cv(1.5, 0.0, 0.0));
    let push = r.expect("boxes overlap by half a unit");
    assert_eq!(push, cv(0.5, 0.0, 0.0));
}

#[test]
fn overlap_of_identical_boxes_qualifies_no_axis() {
    // With coinciding centres no axis points from one box toward the other,
    // so no push-out vector can be chosen.
    let a = box_vertices(0.0, 0.0, 0.0, 1.0);
    let b = box_vertices(0.0, 0.0, 0.0, 1.0);
    let r = sat_polypoly(&a, &cv(0.0, 0.0, 0.0), &b, &cv(0.0, 0.0, 0.0));
    assert!(r.is_none());
}

#[test]
fn ray_down_from_above_centroid_hits_triangle() {
    let tri = [cv(0.0, 0.0, 0.0), cv(1.0, 0.0, 0.0), cv(0.0, 0.0, 1.0)];
    let origin = cv(1.0 / 3.0, 0.1, 1.0 / 3.0);
    let down = cv(0.0, -1.0, 0.0);
    let hit = moller_trumbore(&tri, &origin, &down).expect("the ray points at the triangle");
    // Every rounding step is exact for this input: the hit is the point
    // straight below the origin on the triangle's plane.
    assert_eq!(hit[1], cb(0.0));
    assert_eq!(hit[0], origin[0]);
    assert_eq!(hit[2], origin[2]);
}

#[test]
fn ray_from_below_misses_triangle() {
    let tri = [cv(0.0, 0.0, 0.0), cv(1.0, 0.0, 0.0), cv(0.0, 0.0, 1.0)];
    let origin = cv(1.0 / 3.0, -0.1, 1.0 / 3.0);
    let down = cv(0.0, -1.0, 0.0);
    assert!(moller_trumbore(&tri, &origin, &down).is_none());
}

#[test]
fn empty_region_reports_nothing() {
    let tree = QuadOctreeNode::new_tree(cworld(), false, 300);
    let player = box_obj(0.0, 1.0, 0.0, 0.4);
    let result = check_player_collision(&tree, &cv(0.0, 1.0, 0.0), &player);
    assert!(result.triangle.is_none());
    assert!(result.polygons.is_empty());
}

#[test]
fn ground_is_found_below_the_query_point() {
    let mut tree = QuadOctreeNode::new_tree(cworld(), false, 300);
    let floor = CollisionObj::Triangle([
        cv(-4.0, 0.0, -4.0),
        cv(6.0, 0.0, -4.0),
        cv(-4.0, 0.0, 6.0),
    ]);
    insert_quadoctree_item(&mut tree, floor).unwrap();
    let player = box_obj(0.2, 0.5, 0.2, 0.4);
    let result = check_player_collision(&tree, &cv(0.2, 0.5, 0.2), &player);
    let ground = result.triangle.expect("the floor lies below the query point");
    assert!(f32::from_bits(ground[1]).abs() < 1e-5);
    assert_eq!(ground[0], cb(0.2));
    assert_eq!(ground[2], cb(0.2));
    assert!(result.polygons.is_empty());
}

#[test]
fn overlapping_solid_pushes_the_player_out() {
    let mut tree = QuadOctreeNode::new_tree(cworld(), false, 300);
    insert_quadoctree_item(&mut tree, box_obj(1.5, 0.0, 0.0, 1.0)).unwrap();
    let player = box_obj(0.0, 0.0, 0.0, 1.0);
    let result = check_player_collision(&tree, &cv(0.0, 0.0, 0.0), &player);
    assert!(result.triangle.is_none());
    assert_eq!(result.polygons.len(), 1);
    // The push points from the obstacle toward the player, half a unit deep.
    assert_eq!(result.polygons[0], cv(-0.5, 0.0, 0.0));
}

#[test]
fn push_out_vectors_stop_at_the_cap() {
    let mut tree = QuadOctreeNode::new_tree(cworld(), false, 300);
    let centers = [
        [0.3f32, 0.0, 0.0],
        [-0.3, 0.0, 0.0],
        [0.0, 0.3, 0.0],
        [0.0, -0.3, 0.0],
        [0.0, 0.0, 0.3],
    ];
    for c in centers.iter() {
        insert_quadoctree_item(&mut tree, box_obj(c[0], c[1], c[2], 1.0)).unwrap();
    }
    let player = box_obj(0.0, 0.0, 0.0, 1.0);
    let result = check_player_collision(&tree, &cv(0.0, 0.0, 0.0), &player);
    assert_eq!(result.polygons.len(), 4);
}

#[test]
fn ground_height_query_finds_the_floor() {
    let mut tree = QuadOctreeNode::new_tree(cworld(), true, 300);
    let floor = CollisionObj::Triangle([
        cv(-4.0, 1.0, -4.0),
        cv(6.0, 1.0, -4.0),
        cv(-4.0, 1.0, 6.0),
    ]);
    insert_quadoctree_item(&mut tree, floor).unwrap();
    let hit = ground_height_at(&tree, &cv(0.0, 1.1, 0.0)).expect("the floor lies below");
    assert!((f32::from_bits(hit[1]) - 1.0).abs() < 1e-5);
    // Above the tree's only triangle there is nothing to stand on.
    assert!(ground_height_at(&tree, &cv(0.0, 0.5, 0.0)).is_none());
    // An empty tree never reports ground.
    let empty = QuadOctreeNode::new_tree(cworld(), true, 300);
    assert!(ground_height_at(&empty, &cv(0.0, 1.1, 0.0)).is_none());
}

#[test]
fn matrix_products_match_single_precision() {
    let ident4 = [
        [cb(1.0), cb(0.0), cb(0.0), cb(0.0)],
        [cb(0.0), cb(1.0), cb(0.0), cb(0.0)],
        [cb(0.0), cb(0.0), cb(1.0), cb(0.0)],
        [cb(0.0), cb(0.0), cb(0.0), cb(1.0)],
    ];
    let mut m = [[cb(0.0); 4]; 4];
    let mut mf = [[0.0f32; 4]; 4];
    for i in 0..4 {
        for j in 0..4 {
            let x = (i * 4 + j) as f32 * 0.3 - 1.7;
            mf[i][j] = x;
            m[i][j] = cb(x);
        }
    }
    assert_eq!(mult_matrix(&ident4, &m), m);
    let product = mult_matrix(&m, &m);
    for i in 0..4 {
        for j in 0..4 {
            let mut acc = 0.0f32;
            for k in 0..4 {
                acc += mf[i][k] * mf[k][j];
            }
            assert_eq!(product[i][j], cb(acc));
        }
    }
    let a3 = [
        [cb(1.0), cb(2.0), cb(3.0)],
        [cb(-1.0), cb(0.5), cb(2.0)],
        [cb(0.0), cb(4.0), cb(-2.0)],
    ];
    let product3 = mult_matrix3(&a3, &a3);
    let a3f = [[1.0f32, 2.0, 3.0], [-1.0, 0.5, 2.0], [0.0, 4.0, -2.0]];
    for i in 0..3 {
        for j in 0..3 {
            let mut acc = 0.0f32;
            for k in 0..3 {
                acc += a3f[i][k] * a3f[k][j];
            }
            assert_eq!(product3[i][j], cb(acc));
        }
    }
}

#[test]
fn triangle_shaped_actor_collides_with_nothing() {
    let mut tree = QuadOctreeNode::new_tree(cworld(), false, 300);
    insert_quadoctree_item(&mut tree, box_obj(0.0, 0.0, 0.0, 1.0)).unwrap();
    let floor = CollisionObj::Triangle([
        cv(-4.0, 0.0, -4.0),
        cv(6.0, 0.0, -4.0),
        cv(-4.0, 0.0, 6.0),
    ]);
    insert_quadoctree_item(&mut tree, floor).unwrap();
    // The query's volume must be a polygon; a triangle volume gathers
    // nothing, as in the engine's own use.
    let actor = CollisionObj::Triangle([cv(0.0, 0.0, 0.0), cv(0.1, 0.0, 0.0), cv(0.0, 0.0, 0.1)]);
    let result = check_player_collision(&tree, &cv(0.0, 0.5, 0.0), &actor);
    assert!(result.triangle.is_none());
    assert!(result.polygons.is_empty());
}
