use paraxis::voxel::SparseVoxelOctree as PlainOctree;
use paraxis::voxels::{Frame, RayStack, SparseVoxelOctree, TraversalStep, Voxel};

#[test]
fn stress_insert_remove() {
    let size = 64;
    let mut svo = SparseVoxelOctree::empty(size, 0, 0, 0);
    for x in 0..size {
        for y in 0..size {
            for z in 0..size {
                svo.insert(x, y, z, 1);
            }
        }
    }

    let total_voxels = svo.node_count();
    assert!(total_voxels > 1, "Tree should have grown after insertions");
    for x in 0..size {
        for y in 0..size {
            for z in 0..size {
                svo.remove(x, y, z);
            }
        }
    }
    assert_eq!(
        svo.node_count(),
        total_voxels,
        "Vec should not shrink, but structure should be pruned"
    );
    assert!(svo.root().is_empty(), "Root should be empty after removals");
}

#[test]
fn prune_small_volume_leaves_root_childless() {
    let size = 4;
    let mut svo = PlainOctree::empty(size);
    for x in 0..size {
        for y in 0..size {
            for z in 0..size {
                svo.insert(x, y, z, 7);
            }
        }
    }
    let grown = svo.node_count();
    assert_eq!(grown, 1 + 8 + 64);
    for x in 0..size {
        for y in 0..size {
            for z in 0..size {
                svo.remove(x, y, z);
            }
        }
    }
    assert_eq!(svo.node_count(), grown);
    assert!(svo.root().is_empty());
    assert_eq!(svo.root().material(), u32::MAX);
}

#[test]
fn voxel_empty_has_no_children() {
    let v = Voxel::empty();
    assert!(v.is_empty());
    assert_eq!(v.material(), 0);
    for i in 0..8 {
        assert_eq!(v.child(i), None);
    }
}

#[test]
fn octree_get_after_insert_and_remove() {
    let mut t = PlainOctree::empty(8);
    assert_eq!(t.get(1, 2, 3), None);
    t.insert(1, 2, 3, 42);
    assert_eq!(t.get(1, 2, 3).map(|v| v.material()), Some(42));
    assert_eq!(t.node_count(), 4);
    // a sibling cell shares the path down to the last level
    t.insert(0, 2, 3, 5);
    assert_eq!(t.node_count(), 5);
    assert_eq!(t.get(0, 2, 3).map(|v| v.material()), Some(5));
    assert_eq!(t.get(1, 2, 3).map(|v| v.material()), Some(42));
    t.remove(1, 2, 3);
    assert_eq!(t.get(1, 2, 3), None);
    assert_eq!(t.get(0, 2, 3).map(|v| v.material()), Some(5));
    assert_eq!(t.node_count(), 5);
    t.remove(0, 2, 3);
    assert!(t.root().is_empty());
}

#[test]
fn octree_child_slot_follows_axis_bits() {
    let mut t = PlainOctree::empty(2);
    t.insert(1, 0, 0, 1);
    t.insert(0, 1, 0, 2);
    t.insert(0, 0, 1, 4);
    let root = t.root();
    assert!(root.child(1).is_some());
    assert!(root.child(2).is_some());
    assert!(root.child(4).is_some());
    assert_eq!(root.child(0), None);
    assert_eq!(root.child(7), None);
}

#[test]
fn nearer_child_is_visited_first() {
    let mut tree = SparseVoxelOctree::empty(2, 0, 0, 0);
    tree.insert(0, 0, 0, 3);
    tree.insert(1, 0, 0, 4);
    let mut stack = RayStack::start(tree.root_frame(0));
    let root = match stack.next(&tree) {
        TraversalStep::Expand(children) => children,
        _ => panic!("the root has children"),
    };
    assert_eq!(root.len(), 2);
    assert_eq!((root[0].min_x, root[1].min_x), (0, 1));
    assert_eq!(root[0].size, 1);
    // the farther child comes first in octant order
    let mut far = root[0];
    far.entry = 20;
    let mut near = root[1];
    near.entry = 10;
    stack.push_hits(vec![far, near]);
    match stack.next(&tree) {
        TraversalStep::Hit(f) => assert_eq!(f, near),
        _ => panic!("a leaf comes next"),
    }
    match stack.next(&tree) {
        TraversalStep::Hit(f) => assert_eq!(f, far),
        _ => panic!("a leaf comes next"),
    }
    assert!(matches!(stack.next(&tree), TraversalStep::Exhausted));
}

fn tagged(id: u64, entry: u32) -> Frame {
    Frame { node: 0, min_x: id, min_y: 0, min_z: 0, size: 1, entry }
}

#[test]
fn push_hits_orders_by_entry() {
    let mut stack = RayStack::start(tagged(9, 0));
    stack.push_hits(vec![tagged(1, 5), tagged(2, 1), tagged(3, 9), tagged(4, 1)]);
    let tree = SparseVoxelOctree::empty(1, 0, 0, 0);
    let mut order = Vec::new();
    loop {
        match stack.next(&tree) {
            TraversalStep::Hit(f) => order.push((f.min_x, f.entry)),
            TraversalStep::Expand(_) => panic!("no node has children"),
            TraversalStep::Exhausted => break,
        }
    }
    assert_eq!(order.len(), 5);
    assert_eq!(order[0].1, 1);
    assert_eq!(order[1].1, 1);
    assert_eq!(&order[2..], &[(1, 5), (3, 9), (9, 0)]);
}

#[test]
fn root_frame_spans_the_cube() {
    let t = SparseVoxelOctree::empty(16, 3, 4, 5);
    let f = t.root_frame(77);
    assert_eq!(f, Frame { node: 0, min_x: 3, min_y: 4, min_z: 5, size: 16, entry: 77 });
}

#[test]
fn insert_allocates_only_missing_path_nodes() {
    let mut t = PlainOctree::empty(8);
    assert_eq!(t.side_len(), 8);
    assert_eq!(t.get(1, 2, 3), None);
    t.insert(1, 2, 3, 7);
    assert_eq!(t.node_count(), 4);
    assert_eq!(t.get(0, 0, 0), None);
    t.insert(1, 2, 3, 7);
    assert_eq!(t.node_count(), 4);
    t.insert(1, 2, 3, 9);
    assert_eq!(t.node_count(), 4);
    assert_eq!(t.get(1, 2, 3).map(|v| v.material()), Some(9));

    let mut c = PlainOctree::empty(4);
    for x in 0..2 {
        for y in 0..2 {
            for z in 0..2 {
                c.insert(x, y, z, 1);
            }
        }
    }
    assert_eq!(c.node_count(), 10);
}

#[test]
fn remove_keeps_other_cells_and_ignores_absent_ones() {
    let mut t = PlainOctree::empty(16);
    t.insert(0, 0, 0, 1);
    t.insert(1, 1, 1, 2);
    t.insert(10, 10, 10, 5);
    let before = t.node_count();
    t.remove(3, 3, 3);
    assert_eq!(t.node_count(), before);
    assert_eq!(t.get(0, 0, 0).map(|v| v.material()), Some(1));
    t.remove(1, 1, 1);
    assert_eq!(t.get(1, 1, 1), None);
    assert_eq!(t.get(0, 0, 0).map(|v| v.material()), Some(1));
    assert_eq!(t.get(10, 10, 10).map(|v| v.material()), Some(5));
    assert_eq!(t.node_count(), before);
    // the shared path above (0,0,0) and (1,1,1) is kept, the leaf of (1,1,1) is cut off
    t.insert(1, 1, 1, 3);
    assert_eq!(t.node_count(), before + 1);
}
