use paraxis::key::pack;
use paraxis::payload::{Comparable, Payload};
use paraxis::serial::{deserialize, serialize, DecodeError, SerializedStore};
use paraxis::store::SparseVoxelStore;
use paraxis::voxels::brick::Brick64;

fn sample() -> SparseVoxelStore<u32> {
    let mut s = SparseVoxelStore::new();
    for x in 0..2u16 {
        for y in 0..2u16 {
            for z in 0..2u16 {
                s.insert(11, (x + 4, y, z));
            }
        }
    }
    s.insert(0x0102_0304, (1, 2, 3));
    s.insert(7, (65535, 0, 300));
    s.compress(1);
    s
}

#[test]
fn serialized_rows_follow_key_order() {
    let s = sample();
    let out = serialize(&s);
    assert_eq!(out.tags, vec![0, 1, 0]);
    assert_eq!(out.coords[0], [0, 1, 0, 2, 0, 3]);
    assert_eq!(out.coords[1], [0, 4, 0, 0, 0, 0]);
    assert_eq!(out.coords[2], [255, 255, 0, 0, 1, 44]);
    assert_eq!(out.payloads[0], vec![4, 3, 2, 1]);
    assert_eq!(out.payloads[1], vec![11, 0, 0, 0]);
    assert_eq!(out.payloads[2], vec![7, 0, 0, 0]);
}

#[test]
fn serialization_round_trip() {
    let s = sample();
    let back: SparseVoxelStore<u32> = deserialize(&serialize(&s)).unwrap();
    assert_eq!(back.to_entries(), s.to_entries());
    for &c in [(1, 2, 3), (4, 0, 0), (5, 1, 1), (65535, 0, 300), (0, 0, 0)].iter() {
        assert_eq!(back.get(c), s.get(c));
        for depth in 0..5 {
            assert_eq!(back.get_neighbours_prefix(c, depth), s.get_neighbours_prefix(c, depth));
        }
    }
    assert_eq!(back.get_neighbours_prefix((5, 0, 0), 1), vec![(pack(4, 0, 0, 1), 11)]);
}

#[test]
fn empty_store_round_trip() {
    let s: SparseVoxelStore<bool> = SparseVoxelStore::new();
    let out = serialize(&s);
    assert!(out.tags.is_empty() && out.coords.is_empty() && out.payloads.is_empty());
    let back: SparseVoxelStore<bool> = deserialize(&out).unwrap();
    assert_eq!(back.len(), 0);
}

#[test]
fn brick_payload_round_trip() {
    let mut s: SparseVoxelStore<Brick64> = SparseVoxelStore::new();
    s.insert(Brick64 { occupancy: 0x8000_0000_0000_0001 }, (9, 9, 9));
    s.apply_mutations();
    let out = serialize(&s);
    assert_eq!(out.payloads[0], vec![1, 0, 0, 0, 0, 0, 0, 0x80]);
    let back: SparseVoxelStore<Brick64> = deserialize(&out).unwrap();
    assert!(back.get((9, 9, 9)) == Some(Brick64 { occupancy: 0x8000_0000_0000_0001 }));
}

#[test]
fn payload_bytes() {
    assert_eq!(true.to_bytes(), vec![1]);
    assert_eq!(false.to_bytes(), vec![0]);
    assert_eq!(bool::from_bytes(&[2]), None);
    assert_eq!(bool::from_bytes(&[1]), Some(true));
    assert_eq!(0xdead_beefu32.to_bytes(), vec![0xef, 0xbe, 0xad, 0xde]);
    assert_eq!(u32::from_bytes(&[1, 2, 3, 4]), Some(0x0403_0201));
    assert_eq!(u32::from_bytes(&[1, 2, 3]), None);
    assert!(3u32.same(&3) && !3u32.same(&4));
}

#[test]
fn deserialize_rejects_length_mismatch() {
    let mut out = serialize(&sample());
    out.tags.pop();
    assert_eq!(deserialize::<u32>(&out).err(), Some(DecodeError::LengthMismatch));
}

#[test]
fn deserialize_rejects_bad_tag() {
    let mut out = serialize(&sample());
    out.tags[1] = 16;
    assert_eq!(deserialize::<u32>(&out).err(), Some(DecodeError::BadTag { row: 1 }));
}

#[test]
fn deserialize_rejects_bad_payload() {
    let mut out = serialize(&sample());
    out.payloads[2] = vec![1, 2];
    assert_eq!(deserialize::<u32>(&out).err(), Some(DecodeError::BadPayload { row: 2 }));
}

#[test]
fn deserialize_rebuilds_keys_from_rows() {
    let rows = SerializedStore {
        coords: vec![[0, 5, 0, 1, 0, 1], [0, 3, 0, 3, 0, 3]],
        tags: vec![1, 0],
        payloads: vec![vec![1], vec![0]],
    };
    let s: SparseVoxelStore<bool> = deserialize(&rows).unwrap();
    assert_eq!(s.to_entries(), vec![(pack(3, 3, 3, 0), false), (pack(4, 0, 0, 1), true)]);
}
