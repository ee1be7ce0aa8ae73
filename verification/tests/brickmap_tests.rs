use brickworld::brick::{Brick, Color, GridPos};
use brickworld::brickmap::{CpuBrickmap, Node, PlacementError};
use brickworld::extract::{Instance, StreamingPos};

fn gray() -> Color {
    Color { r: 100, g: 100, b: 100, a: 255 }
}

fn pos(x: u32, y: u32, z: u32) -> GridPos {
    GridPos { x, y, z }
}

fn solid_brick() -> Brick {
    let mut b = Brick::empty();
    b.write(pos(0, 0, 0), gray());
    b
}

fn origin() -> StreamingPos {
    StreamingPos { x: 0, y: 0, z: 0 }
}

#[test]
fn brick_write_and_get() {
    let mut b = Brick::empty();
    assert_eq!(b.get(pos(1, 2, 3)), None);
    b.write(pos(1, 2, 3), gray());
    assert_eq!(b.get(pos(1, 2, 3)), Some(gray()));
    assert_eq!(b.get(pos(3, 2, 1)), None);
}

#[test]
fn place_and_search_reports_one_leaf() {
    let mut t = CpuBrickmap::new(2);
    t.place_brick(solid_brick(), pos(1, 2, 3)).unwrap();
    let instances = t.extract_instances(false, false, origin());
    assert_eq!(instances.len(), 1);
    let inst = instances[0];
    // octant coordinate minus the centering offset 2^(depth-1) = 2
    assert_eq!((inst.x, inst.y, inst.z), (-1, 0, 1));
    assert_eq!(inst.scale, 1);
    assert_eq!(inst.brick, 0);
}

#[test]
fn out_of_bounds_placement_leaves_tree_unchanged() {
    let mut t = CpuBrickmap::new(2);
    t.place_brick(solid_brick(), pos(0, 0, 0)).unwrap();
    let nodes_before = t.nodes.clone();
    let bricks_before = t.bricks.len();
    // 4 needs 3 bits, but depth 2 only admits coordinates below 2^2
    let r = t.place_brick(solid_brick(), pos(4, 0, 0));
    assert_eq!(r, Err(PlacementError::OutOfBounds));
    assert_eq!(t.nodes, nodes_before);
    assert_eq!(t.bricks.len(), bricks_before);
    let r2 = t.place_brick(solid_brick(), pos(0, 7, 0));
    assert_eq!(r2, Err(PlacementError::OutOfBounds));
    assert_eq!(t.nodes, nodes_before);
}

#[test]
fn overwriting_a_position_keeps_one_leaf_with_the_new_brick() {
    let mut t = CpuBrickmap::new(1);
    t.place_brick(solid_brick(), pos(1, 0, 1)).unwrap();
    let mut second = Brick::empty();
    second.write(pos(3, 3, 3), gray());
    t.place_brick(second, pos(1, 0, 1)).unwrap();
    let instances = t.extract_instances(false, false, origin());
    assert_eq!(instances.len(), 1);
    // last write wins: the leaf points at the freshly stored brick
    assert_eq!(instances[0].brick, 1);
    assert_eq!(t.bricks[instances[0].brick].get(pos(3, 3, 3)), Some(gray()));
}

#[test]
fn recreate_mipmaps_is_idempotent() {
    let mut t = CpuBrickmap::new(2);
    t.place_brick(solid_brick(), pos(0, 0, 0)).unwrap();
    t.place_brick(solid_brick(), pos(3, 1, 2)).unwrap();
    t.recreate_mipmaps();
    let once = t.nodes.clone();
    t.recreate_mipmaps();
    assert_eq!(t.nodes, once);
}

#[test]
fn all_empty_internal_node_is_pruned() {
    // place one brick, then clear its leaf slot, leaving the root as an
    // internal node with 8 empty children
    let mut t = CpuBrickmap::new(1);
    t.place_brick(solid_brick(), pos(0, 0, 0)).unwrap();
    assert!(matches!(t.nodes[0], Node::Internal(_)));
    assert!(matches!(t.nodes[1], Node::Leaf(_)));
    t.nodes[1] = Node::Empty;
    t.recreate_mipmaps();
    assert_eq!(t.nodes[0], Node::Empty);
}

#[test]
fn unsorted_extraction_preserves_octant_preorder() {
    let mut t = CpuBrickmap::new(1);
    // place in scrambled order; traversal order is octant order, not
    // insertion order
    let coords = [
        (1u32, 1u32, 1u32),
        (0, 0, 0),
        (1, 0, 0),
        (0, 1, 1),
        (0, 1, 0),
        (1, 1, 0),
        (0, 0, 1),
        (1, 0, 1),
    ];
    for &(x, y, z) in coords.iter() {
        t.place_brick(solid_brick(), pos(x, y, z)).unwrap();
    }
    let instances = t.extract_instances(false, false, origin());
    assert_eq!(instances.len(), 8);
    let expected_positions = [
        (-1i64, -1i64, -1i64),
        (0, -1, -1),
        (-1, 0, -1),
        (0, 0, -1),
        (-1, -1, 0),
        (0, -1, 0),
        (-1, 0, 0),
        (0, 0, 0),
    ];
    for (inst, &(x, y, z)) in instances.iter().zip(expected_positions.iter()) {
        assert_eq!((inst.x, inst.y, inst.z), (x, y, z));
        assert_eq!(inst.scale, 1);
    }
}

fn squared_distance(inst: &Instance, p: &StreamingPos) -> i64 {
    let dx = 2 * inst.x + inst.scale as i64 - p.x;
    let dy = 2 * inst.y + inst.scale as i64 - p.y;
    let dz = 2 * inst.z + inst.scale as i64 - p.z;
    dx * dx + dy * dy + dz * dz
}

fn fill_eight(t: &mut CpuBrickmap) {
    for x in 0..2u32 {
        for y in 0..2u32 {
            for z in 0..2u32 {
                t.place_brick(solid_brick(), pos(x, y, z)).unwrap();
            }
        }
    }
}

#[test]
fn sorted_extraction_is_ordered_by_distance() {
    let mut t = CpuBrickmap::new(1);
    fill_eight(&mut t);
    // streaming position at the center of the brick at coordinate (1,1,1)
    let sp = StreamingPos { x: 1, y: 1, z: 1 };
    let sorted = t.extract_instances(true, false, sp);
    assert_eq!(sorted.len(), 8);
    for w in sorted.windows(2) {
        assert!(squared_distance(&w[0], &sp) <= squared_distance(&w[1], &sp));
    }
    // the nearest cube is the one the streaming position sits in, the
    // farthest is the diagonally opposite one
    assert_eq!((sorted[0].x, sorted[0].y, sorted[0].z), (0, 0, 0));
    assert_eq!((sorted[7].x, sorted[7].y, sorted[7].z), (-1, -1, -1));
}

#[test]
fn reverse_sorted_extraction_is_ordered_back_to_front() {
    let mut t = CpuBrickmap::new(1);
    fill_eight(&mut t);
    let sp = StreamingPos { x: 1, y: 1, z: 1 };
    let sorted = t.extract_instances(true, true, sp);
    assert_eq!(sorted.len(), 8);
    for w in sorted.windows(2) {
        assert!(squared_distance(&w[0], &sp) >= squared_distance(&w[1], &sp));
    }
    assert_eq!((sorted[0].x, sorted[0].y, sorted[0].z), (-1, -1, -1));
}

#[test]
fn sorting_is_stable_on_ties() {
    let mut t = CpuBrickmap::new(1);
    fill_eight(&mut t);
    // the world center is equidistant from all 8 cube centers, so the
    // sorted order must equal the deterministic traversal order
    let sp = origin();
    let unsorted = t.extract_instances(false, false, sp);
    let sorted = t.extract_instances(true, false, sp);
    assert_eq!(sorted, unsorted);
}

#[test]
fn distance_key_matches_squared_distance() {
    let inst = Instance { x: 1, y: 2, z: 3, scale: 1, brick: 0 };
    let sp = origin();
    // center doubled is (3, 5, 7)
    assert_eq!(brickworld::extract::distance_key(inst, sp), 9 + 25 + 49);
}

#[test]
fn recursive_search_visits_every_node_preorder() {
    let mut t = CpuBrickmap::new(1);
    t.place_brick(solid_brick(), pos(0, 0, 0)).unwrap();
    let visits = t.recursive_search();
    // the root plus its 8 children
    assert_eq!(visits.len(), 9);
    assert_eq!(visits[0].node_index, 0);
    assert_eq!(visits[0].depth, 0);
    assert!(matches!(t.nodes[visits[0].node_index], Node::Internal(_)));
    let leaf_visits: Vec<_> = visits
        .iter()
        .filter(|v| matches!(t.nodes[v.node_index], Node::Leaf(_)))
        .collect();
    assert_eq!(leaf_visits.len(), 1);
    assert_eq!(
        (leaf_visits[0].pos.x, leaf_visits[0].pos.y, leaf_visits[0].pos.z),
        (0, 0, 0)
    );
    assert_eq!(leaf_visits[0].depth, 1);
}
