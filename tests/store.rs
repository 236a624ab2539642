use paraxis::key::{key_of, pack};
use paraxis::store::SparseVoxelStore;

fn store_with(points: &[((u16, u16, u16), u32)]) -> SparseVoxelStore<u32> {
    let mut s = SparseVoxelStore::new();
    for &(c, v) in points.iter() {
        s.insert(v, c);
    }
    s.apply_mutations();
    s
}

fn values(entries: &[(u64, u32)]) -> Vec<u32> {
    let mut v: Vec<u32> = entries.iter().map(|e| e.1).collect();
    v.sort();
    v
}

#[test]
fn insert_then_get() {
    let mut s: SparseVoxelStore<u32> = SparseVoxelStore::new();
    s.insert(9, (1, 2, 3));
    assert_eq!(s.get((1, 2, 3)), None);
    s.apply_mutations();
    assert_eq!(s.get((1, 2, 3)), Some(9));
    assert_eq!(s.get((0, 0, 0)), None);
    assert_eq!(s.len(), 1);
}

#[test]
fn later_insert_overwrites() {
    let mut s: SparseVoxelStore<u32> = SparseVoxelStore::new();
    s.insert(1, (4, 4, 4));
    s.insert(2, (4, 4, 4));
    s.apply_mutations();
    assert_eq!(s.get((4, 4, 4)), Some(2));
    assert_eq!(s.len(), 1);
}

#[test]
fn insert_remove_then_get() {
    let mut s: SparseVoxelStore<u32> = SparseVoxelStore::new();
    s.insert(5, (7, 8, 9));
    s.remove((7, 8, 9));
    s.apply_mutations();
    assert_eq!(s.get((7, 8, 9)), None);
    assert_eq!(s.len(), 0);
}

#[test]
fn remove_of_missing_cell_changes_nothing() {
    let mut s = store_with(&[((1, 1, 1), 3)]);
    s.remove((2, 2, 2));
    s.apply_mutations();
    assert_eq!(s.len(), 1);
    assert_eq!(s.get((1, 1, 1)), Some(3));
}

#[test]
fn prefix_query_grows_with_depth() {
    let s = store_with(&[((0, 0, 0), 1), ((2, 0, 0), 2)]);
    assert_eq!(s.get_neighbours_prefix((0, 0, 0), 0).len(), 1);
    assert_eq!(s.get_neighbours_prefix((0, 0, 0), 1).len(), 1);
    assert_eq!(s.get_neighbours_prefix((0, 0, 0), 2).len(), 2);
    assert_eq!(s.get_neighbours_prefix((0, 0, 0), 16).len(), 2);
    assert_eq!(values(&s.get_neighbours_prefix((3, 3, 3), 2)), vec![1, 2]);
    assert_eq!(s.get_neighbours_prefix((4, 0, 0), 2).len(), 0);
}

#[test]
fn prefix_query_lists_in_key_order() {
    let s = store_with(&[((2, 0, 0), 2), ((1, 0, 0), 1), ((0, 1, 0), 3)]);
    let r = s.get_neighbours_prefix((0, 0, 0), 2);
    assert_eq!(r, vec![(key_of(1, 0, 0), 1), (key_of(0, 1, 0), 3), (key_of(2, 0, 0), 2)]);
}

#[test]
fn cross_neighbours_of_a_cell() {
    let s = store_with(&[((4, 5, 6), 1), ((6, 5, 6), 2), ((5, 4, 6), 3), ((5, 5, 7), 4), ((5, 5, 6), 9)]);
    assert_eq!(
        s.get_neighbours_cross((5, 5, 6)),
        vec![Some(1), Some(2), Some(3), None, None, Some(4)]
    );
    let edge = store_with(&[((1, 0, 0), 8)]);
    assert_eq!(edge.get_neighbours_cross((0, 0, 0)), vec![None, Some(8), None, None, None, None]);
}

#[test]
fn compaction_collapses_full_cube() {
    let mut s: SparseVoxelStore<bool> = SparseVoxelStore::new();
    let corners = [(0, 0, 0), (1, 0, 0), (0, 1, 0), (1, 1, 0), (0, 0, 1), (1, 0, 1), (0, 1, 1), (1, 1, 1)];
    for &c in corners.iter() {
        s.insert(true, c);
    }
    s.apply_mutations();
    let before = s.len();
    assert_eq!(before, 8);
    s.compress(2);
    assert!(s.len() < before);
    assert_eq!(s.len(), 1);
    for &c in corners.iter() {
        let found = s.get_neighbours_prefix(c, 1);
        assert_eq!(found, vec![(pack(0, 0, 0, 1), true)]);
        // a value folded into a coarser entry is not found by a plain lookup
        assert_eq!(s.get(c), None);
    }
}

#[test]
fn compaction_keeps_mixed_or_partial_regions() {
    let mut s: SparseVoxelStore<u32> = SparseVoxelStore::new();
    for x in 0..2u16 {
        for y in 0..2u16 {
            for z in 0..2u16 {
                s.insert(if x == 1 && y == 1 && z == 1 { 2 } else { 1 }, (x, y, z));
                s.insert(1, (x + 2, y, z));
            }
        }
    }
    s.remove((3, 1, 1));
    s.compress(3);
    assert_eq!(s.len(), 15);
    assert_eq!(s.get((1, 1, 1)), Some(2));
    assert_eq!(s.get((2, 0, 0)), Some(1));
    assert_eq!(s.get((3, 1, 1)), None);
}

#[test]
fn compaction_of_two_cubes_and_idempotence() {
    let mut s: SparseVoxelStore<u32> = SparseVoxelStore::new();
    for x in 0..4u16 {
        for y in 0..2u16 {
            for z in 0..2u16 {
                s.insert(if x < 2 { 5 } else { 6 }, (x, y, z));
            }
        }
    }
    s.compress(1);
    assert_eq!(s.to_entries(), vec![(pack(0, 0, 0, 1), 5), (pack(2, 0, 0, 1), 6)]);
    s.compress(4);
    assert_eq!(s.to_entries(), vec![(pack(0, 0, 0, 1), 5), (pack(2, 0, 0, 1), 6)]);
}

#[test]
fn removing_a_cell_inside_a_compacted_region_drops_the_region() {
    let mut s: SparseVoxelStore<u32> = SparseVoxelStore::new();
    for x in 0..2u16 {
        for y in 0..2u16 {
            for z in 0..2u16 {
                s.insert(3, (x, y, z));
            }
        }
    }
    s.insert(4, (5, 5, 5));
    s.compress(1);
    assert_eq!(s.len(), 2);
    s.remove((1, 0, 1));
    s.apply_mutations();
    assert_eq!(s.len(), 1);
    assert_eq!(s.get((5, 5, 5)), Some(4));
    assert_eq!(s.get_neighbours_prefix((0, 0, 0), 1).len(), 0);
}

#[test]
fn radius_box_query() {
    let s = store_with(&[
        ((0, 0, 0), 0),
        ((1, 1, 1), 1),
        ((2, 2, 2), 2),
        ((5, 5, 5), 5),
        ((10, 10, 10), 10),
    ]);
    assert_eq!(values(&s.get_neighbours_area((1, 1, 1), 1)), vec![0, 1, 2]);
    assert_eq!(values(&s.get_neighbours_area((1, 1, 1), 0)), vec![1]);
    assert_eq!(values(&s.get_neighbours_area((1000, 1000, 1000), 1)), Vec::<u32>::new());
    assert_eq!(values(&s.get_neighbours_area((7, 7, 7), 3)), vec![5, 10]);
    assert_eq!(values(&s.get_neighbours_area((0, 0, 0), 65535)), vec![0, 1, 2, 5, 10]);
}

#[test]
fn radius_query_across_block_boundary() {
    let s = store_with(&[((3, 3, 3), 1), ((4, 4, 4), 2), ((4, 3, 3), 3)]);
    assert_eq!(values(&s.get_neighbours_area((3, 3, 3), 1)), vec![1, 2, 3]);
    assert_eq!(values(&s.get_neighbours_area((4, 4, 4), 0)), vec![2]);
}

#[test]
fn radius_query_sees_compacted_corner() {
    let mut s: SparseVoxelStore<u32> = SparseVoxelStore::new();
    for x in 0..2u16 {
        for y in 0..2u16 {
            for z in 0..2u16 {
                s.insert(7, (x + 2, y + 2, z + 2));
            }
        }
    }
    s.compress(1);
    assert_eq!(s.get_neighbours_area((1, 1, 1), 1), vec![(pack(2, 2, 2, 1), 7)]);
    assert_eq!(s.get_neighbours_area((4, 4, 4), 1).len(), 0);
}
