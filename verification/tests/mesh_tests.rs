use std::sync::Arc;
use voxel_engine::engine::data::{BlockTypes, ChunkPos};
use voxel_engine::engine::mesh::{self, Mesh};
use voxel_engine::engine::meshgen;
use voxel_engine::game::chunk::manager::ChunkNeighborhood;
use voxel_engine::game::chunk::Chunk;

fn chunk_at(x: i32, y: i32, z: i32, fill: Option<BlockTypes>) -> Chunk {
    Chunk::new(fill, ChunkPos { x, y, z })
}

fn lone(center: Chunk) -> ChunkNeighborhood {
    ChunkNeighborhood { center: Arc::new(center), neighbors: [None, None, None, None, None, None] }
}

fn assert_quad_indices(indices: &[u32], faces: usize) {
    assert_eq!(indices.len(), faces * 6);
    for q in 0..faces as u32 {
        let b = 4 * q;
        assert_eq!(&indices[6 * q as usize..6 * q as usize + 6], &[b, b + 1, b + 2, b, b + 2, b + 3]);
    }
}

#[test]
fn default_mesh_is_a_unit_square() {
    let m = Mesh::default();
    let positions: Vec<[i32; 3]> = m.vertices.iter().map(|v| v.position).collect();
    assert_eq!(positions, vec![[-1, -1, 0], [1, -1, 0], [1, 1, 0], [-1, 1, 0]]);
    assert!(m.vertices.iter().all(|v| v.packed == 0));
    assert_eq!(m.indices, vec![0, 1, 2, 2, 3, 0]);
}

#[test]
fn meshgen_air_chunk_is_empty() {
    let m = meshgen::mesh_chunk(&lone(chunk_at(0, 0, 0, None)));
    assert!(m.vertices.is_empty());
    assert!(m.indices.is_empty());
}

#[test]
fn meshgen_single_block_has_six_faces_in_face_order() {
    let mut c = chunk_at(0, 0, 0, None);
    c.set(1, 2, 3, BlockTypes::STONE);
    let m = meshgen::mesh_chunk(&lone(c));
    assert_eq!(m.vertices.len(), 24);
    assert_quad_indices(&m.indices, 6);
    // +z, -z, +x, -x, +y, -y: direction codes 4, 5, 0, 1, 2, 3, block code 1
    let dirs: Vec<u32> = (0..6).map(|f| m.vertices[4 * f].packed >> 8).collect();
    assert_eq!(dirs, vec![4, 5, 0, 1, 2, 3]);
    assert!(m.vertices.iter().all(|v| v.packed & 0xFF == 1));
    // first corner of the +z face is (x, y, z + 1); of the -z face (x + 1, y, z)
    assert_eq!(m.vertices[0].position, [1, 2, 4]);
    assert_eq!(m.vertices[1].position, [2, 2, 4]);
    assert_eq!(m.vertices[4].position, [2, 2, 3]);
    assert_eq!(m.vertices[8].position, [2, 2, 4]);
}

#[test]
fn meshgen_world_pos_is_chunk_position_in_blocks() {
    let m = meshgen::mesh_chunk(&lone(chunk_at(2, -1, 3, None)));
    assert_eq!(m.world_pos, [64, -32, 96]);
}

#[test]
fn meshgen_hides_faces_against_solid_neighbours() {
    let mut c = chunk_at(0, 0, 0, None);
    c.set(0, 0, 0, BlockTypes::STONE);
    let stone = || Some(Arc::new(chunk_at(9, 9, 9, Some(BlockTypes::STONE))));
    let nb = ChunkNeighborhood { center: Arc::new(c), neighbors: [stone(), stone(), stone(), stone(), stone(), stone()] };
    let m = meshgen::mesh_chunk(&nb);
    // the -z, -x and -y faces touch the stone neighbours; +z, +x, +y face air
    assert_eq!(m.vertices.len(), 12);
    let dirs: Vec<u32> = (0..3).map(|f| m.vertices[4 * f].packed >> 8).collect();
    assert_eq!(dirs, vec![4, 0, 2]);
}

#[test]
fn meshgen_missing_neighbour_counts_as_air() {
    let full = chunk_at(0, 0, 0, Some(BlockTypes::STONE));
    let m = meshgen::mesh_chunk(&lone(full));
    assert_eq!(m.vertices.len(), 6 * 32 * 32 * 4);
    assert_quad_indices(&m.indices, 6 * 32 * 32);
}

#[test]
fn meshgen_fully_enclosed_solid_chunk_is_empty() {
    let stone = || Some(Arc::new(chunk_at(9, 9, 9, Some(BlockTypes::STONE))));
    let nb = ChunkNeighborhood {
        center: Arc::new(chunk_at(0, 0, 0, Some(BlockTypes::STONE))),
        neighbors: [stone(), stone(), stone(), stone(), stone(), stone()],
    };
    let m = meshgen::mesh_chunk(&nb);
    assert!(m.vertices.is_empty());
    assert!(m.indices.is_empty());
}

#[test]
fn meshgen_reads_the_wrapped_cell_of_the_neighbour() {
    let mut c = chunk_at(0, 0, 0, None);
    c.set(31, 5, 6, BlockTypes::STONE);
    let mut right = chunk_at(1, 0, 0, None);
    right.set(0, 5, 6, BlockTypes::STONE);
    let nb = ChunkNeighborhood {
        center: Arc::new(c),
        neighbors: [None, None, Some(Arc::new(right)), None, None, None],
    };
    let m = meshgen::mesh_chunk(&nb);
    assert_eq!(m.vertices.len(), 20);
    assert!(m.vertices.iter().step_by(4).all(|v| v.packed >> 8 != 0));
}

#[test]
fn legacy_mesher_counts_boundary_faces() {
    let m = mesh::mesh_chunk(&chunk_at(0, 0, 0, Some(BlockTypes::STONE)));
    assert_eq!(m.vertices.len(), 6 * 32 * 32 * 4);
    assert_quad_indices(&m.indices, 6 * 32 * 32);
}

#[test]
fn legacy_mesher_two_adjacent_blocks_share_no_face() {
    let mut c = chunk_at(0, 0, 0, None);
    c.set(4, 4, 4, BlockTypes::STONE);
    c.set(5, 4, 4, BlockTypes::STONE);
    let m = mesh::mesh_chunk(&c);
    assert_eq!(m.vertices.len(), 10 * 4);
    // legacy corner order: +x face of block (4,4,4) is hidden; first face is +z of (4,4,4)
    assert_eq!(m.vertices[0].position, [4, 4, 5]);
    assert_eq!(m.vertices[4].position, [4, 4, 4]);
    assert_eq!(m.vertices[5].position, [4, 5, 4]);
}
