use voxel_engine::engine::data::{pack_chunk_coords, unpack_chunk_coords, BlockTypes, ChunkPos, CHUNK_SIZE};
use voxel_engine::engine::mesh::pack_information;

fn pos(x: i32, y: i32, z: i32) -> ChunkPos {
    ChunkPos { x, y, z }
}

#[test]
fn pack_places_fields_in_their_bits() {
    assert_eq!(pack_chunk_coords(1, 2, 3), (3u64 << 42) | (2u64 << 21) | 1);
    assert_eq!(pack_chunk_coords(0, 0, 0), 0);
}

#[test]
fn pack_keeps_low_21_bits_of_negative_coordinates() {
    assert_eq!(pack_chunk_coords(-1, 0, 0), 0x1FFFFF);
    assert_eq!(pack_chunk_coords(0, -1, 0), 0x1FFFFF << 21);
    assert_eq!(pack_chunk_coords(0, 0, -1), 0x1FFFFF << 42);
}

#[test]
fn unpack_gives_back_packed_positions() {
    for &(x, y, z) in &[(0, 0, 0), (1, -2, 3), (-1_048_576, 1_048_575, -7), (12345, -54321, 0), (-1, -1, -1)] {
        assert_eq!(unpack_chunk_coords(pack_chunk_coords(x, y, z)), pos(x, y, z));
    }
}

#[test]
fn unpack_sign_extends_each_field() {
    assert_eq!(unpack_chunk_coords(0x1FFFFF), pos(-1, 0, 0));
    assert_eq!(unpack_chunk_coords(0x100000), pos(-1_048_576, 0, 0));
    assert_eq!(unpack_chunk_coords(0xFFFFF), pos(1_048_575, 0, 0));
}

#[test]
fn pack_wraps_coordinates_outside_21_bits() {
    assert_eq!(unpack_chunk_coords(pack_chunk_coords(1_048_576, 0, 0)), pos(-1_048_576, 0, 0));
    assert_eq!(pack_chunk_coords(0x200000, 0, 0), 0);
}

#[test]
fn pack_unpack_key_roundtrip() {
    let key = (5u64 << 42) | (0x1FFFFEu64 << 21) | 9;
    let p = unpack_chunk_coords(key);
    assert_eq!(p, pos(9, -2, 5));
    assert_eq!(pack_chunk_coords(p.x, p.y, p.z), key);
}

#[test]
fn pack_information_puts_block_low_and_direction_above() {
    assert_eq!(pack_information([1, 0, 0], BlockTypes::STONE), 1);
    assert_eq!(pack_information([-1, 0, 0], BlockTypes::STONE), 1 | (1 << 8));
    assert_eq!(pack_information([0, 1, 0], BlockTypes::AIR), 2 << 8);
    assert_eq!(pack_information([0, -1, 0], BlockTypes::STONE), 1 | (3 << 8));
    assert_eq!(pack_information([0, 0, 1], BlockTypes::STONE), 1 | (4 << 8));
    assert_eq!(pack_information([0, 0, -1], BlockTypes::AIR), 5 << 8);
}

#[test]
fn pack_information_treats_other_normals_as_direction_zero() {
    assert_eq!(pack_information([1, 1, 0], BlockTypes::STONE), 1);
    assert_eq!(pack_information([0, 0, 0], BlockTypes::AIR), 0);
}

#[test]
fn packed_word_decodes() {
    let p = pack_information([0, -1, 0], BlockTypes::STONE);
    assert_eq!(p & 0xFF, 1);
    assert_eq!(p >> 8, 3);
}

#[test]
fn chunk_size_is_32() {
    assert_eq!(CHUNK_SIZE, 32);
}
