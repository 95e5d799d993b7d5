use voxel_engine::engine::data::{BlockTypes, ChunkPos};
use voxel_engine::game::chunk::{BuildIdentityHasher, Chunk, IdentityHasher};

fn origin() -> ChunkPos {
    ChunkPos { x: 0, y: 0, z: 0 }
}

#[test]
fn new_chunk_without_fill_is_air_and_empty() {
    let c = Chunk::new(None, ChunkPos { x: 1, y: 2, z: 3 });
    assert_eq!(c.data.len(), 32 * 32 * 32);
    assert!(c.data.iter().all(|b| *b == BlockTypes::AIR));
    assert!(c.is_empty);
    assert!(!c.is_solid);
    assert_eq!(c.position, ChunkPos { x: 1, y: 2, z: 3 });
}

#[test]
fn new_chunk_filled_with_stone_is_solid() {
    let c = Chunk::new(Some(BlockTypes::STONE), origin());
    assert!(c.data.iter().all(|b| *b == BlockTypes::STONE));
    assert!(!c.is_empty);
    assert!(c.is_solid);
}

#[test]
fn new_chunk_filled_with_air_is_empty() {
    let c = Chunk::new(Some(BlockTypes::AIR), origin());
    assert!(c.data.iter().all(|b| *b == BlockTypes::AIR));
    assert!(c.is_empty);
    assert!(!c.is_solid);
}

#[test]
fn idx_is_x_major() {
    assert_eq!(Chunk::idx(0, 0, 0), 0);
    assert_eq!(Chunk::idx(0, 0, 1), 1);
    assert_eq!(Chunk::idx(0, 1, 0), 32);
    assert_eq!(Chunk::idx(1, 0, 0), 1024);
    assert_eq!(Chunk::idx(31, 31, 31), 32767);
}

#[test]
fn get_after_set_reads_the_written_block() {
    let mut c = Chunk::new(None, origin());
    c.set(3, 4, 5, BlockTypes::STONE);
    assert_eq!(c.get(3, 4, 5), BlockTypes::STONE);
    assert_eq!(c.get(5, 4, 3), BlockTypes::AIR);
    assert_eq!(c.get(3, 4, 6), BlockTypes::AIR);
    assert_eq!(c.data[3 * 1024 + 4 * 32 + 5], BlockTypes::STONE);
}

#[test]
fn set_marks_chunk_not_empty_even_for_air() {
    let mut c = Chunk::new(None, origin());
    c.set(0, 0, 0, BlockTypes::AIR);
    assert!(!c.is_empty);
    assert!(!c.is_solid);
}

#[test]
fn identity_hasher_returns_last_u64() {
    let mut h: IdentityHasher = BuildIdentityHasher.build_hasher();
    assert_eq!(h.finish(), 0);
    h.write_u64(42);
    assert_eq!(h.finish(), 42);
    h.write_u64(7);
    assert_eq!(h.finish(), 7);
}
