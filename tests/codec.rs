use paraxis::key::{key_of, pack, unpack};
use paraxis::voxels::morton::{decode, Morton, MortonCode};

#[test]
fn encode_interleaves_axis_bits() {
    assert_eq!(MortonCode::encode(0, 0, 0), 0);
    assert_eq!(MortonCode::encode(1, 0, 0), 1);
    assert_eq!(MortonCode::encode(0, 1, 0), 2);
    assert_eq!(MortonCode::encode(0, 0, 1), 4);
    assert_eq!(MortonCode::encode(2, 0, 0), 8);
    assert_eq!(MortonCode::encode(3, 5, 6), 0b110_101_011);
    assert_eq!(MortonCode::encode(1, 2, 3), 0b110_101);
}

#[test]
fn split_by_3_spreads_bits() {
    assert_eq!(MortonCode::split_by_3(0), 0);
    assert_eq!(MortonCode::split_by_3(0b1011), 0b001_000_001_001);
    assert_eq!(MortonCode::split_by_3(0x1f_ffff), 0x1249_2492_4924_9249);
    // bits above the 21st are dropped
    assert_eq!(MortonCode::split_by_3(0x20_0001), 1);
}

#[test]
fn decode_inverts_encode() {
    let samples = [
        (0u32, 0u32, 0u32),
        (1, 2, 3),
        (65535, 0, 65535),
        (12345, 54321, 999),
        (0x1f_ffff, 0x1f_ffff, 0x1f_ffff),
        (7, 65535, 1024),
    ];
    for &(x, y, z) in samples.iter() {
        assert_eq!(decode(MortonCode::encode(x, y, z)), (x, y, z));
    }
    for x in 0..16u32 {
        for y in 0..16u32 {
            for z in 0..16u32 {
                assert_eq!(decode(MortonCode::encode(x, y, z)), (x, y, z));
            }
        }
    }
}

#[test]
fn child_bit_and_branch() {
    let mut c: MortonCode = 5;
    assert!(c.is_child());
    c.branch();
    assert_eq!(c, 4);
    assert!(!c.is_child());
    c.branch();
    assert_eq!(c, 4);
}

#[test]
fn cell_keys_sit_above_control_bits() {
    assert_eq!(key_of(0, 0, 0), 0);
    assert_eq!(key_of(1, 0, 0), 1 << 16);
    assert_eq!(key_of(1, 2, 3), 0b110_101 << 16);
    assert_eq!(key_of(65535, 65535, 65535), 0xffff_ffff_ffff_0000);
}

#[test]
fn pack_clears_fine_levels_and_tags() {
    assert_eq!(pack(1, 1, 1, 0), 7 << 16);
    assert_eq!(pack(1, 1, 1, 1), 1);
    assert_eq!(pack(3, 2, 1, 1), (0b011_000 << 16) | 1);
    assert_eq!(unpack(pack(3, 2, 1, 1)), (2, 2, 0, 1));
    assert_eq!(unpack(key_of(40000, 3, 65535)), (40000, 3, 65535, 0));
}
