use std::ops::Range;
use voxel_engine::engine::data::Vertex;
use voxel_engine::engine::meshgen::Mesh;
use voxel_engine::render::manager::{Allocation, Megabuffer, ResourceManager};
use voxel_engine::render::pipeline::PipelineType;

fn mesh(vertices: usize, indices: usize) -> Mesh {
    Mesh {
        vertices: vec![Vertex { position: [0, 0, 0], packed: 0 }; vertices],
        indices: vec![0; indices],
        world_pos: [32, 0, -64],
    }
}

#[test]
fn find_space_takes_from_the_cursor_when_nothing_fits() {
    let mut regions: Vec<Range<u64>> = vec![0..10];
    let mut cursor = 100;
    assert_eq!(Megabuffer::find_space(&mut regions, 16, &mut cursor), 100);
    assert_eq!(cursor, 116);
    assert_eq!(regions, vec![0..10]);
}

#[test]
fn find_space_takes_the_first_hole_that_fits_and_keeps_its_tail() {
    let mut regions: Vec<Range<u64>> = vec![0..8, 20..60, 70..200];
    let mut cursor = 300;
    assert_eq!(Megabuffer::find_space(&mut regions, 16, &mut cursor), 20);
    assert_eq!(cursor, 300);
    assert_eq!(regions, vec![0..8, 70..200, 36..60]);
}

#[test]
fn find_space_uses_an_exact_hole_whole() {
    let mut regions: Vec<Range<u64>> = vec![40..56];
    let mut cursor = 300;
    assert_eq!(Megabuffer::find_space(&mut regions, 16, &mut cursor), 40);
    assert!(regions.is_empty());
}

#[test]
fn free_returns_ranges_to_the_lists() {
    let mut m = Megabuffer::new();
    let a = m.allocate(&mesh(4, 8));
    assert_eq!((a.allocation.v_range.clone(), a.allocation.i_range.clone()), (0..64, 0..32));
    m.free(Allocation { v_range: 0..64, i_range: 8..32 });
    assert_eq!(m.free_vertex_region, vec![0..64]);
    assert_eq!(m.free_index_region, vec![8..32]);
    assert_eq!(m.v_cursor, 64);
}

#[test]
fn allocate_places_vertices_and_indices() {
    let mut m = Megabuffer::new();
    let a = m.allocate(&mesh(4, 6));
    assert_eq!(a.allocation.v_range, 0..64);
    assert_eq!(a.allocation.i_range, 0..24);
    assert_eq!((a.base_vertex, a.first_index, a.index_count), (0, 0, 6));
    let b = m.allocate(&mesh(8, 12));
    assert_eq!(b.allocation.v_range, 64..192);
    assert_eq!(b.allocation.i_range, 24..72);
    assert_eq!((b.base_vertex, b.first_index, b.index_count), (4, 6, 12));
    assert_eq!(b.world_pos, [32, 0, -64]);
    assert_eq!((m.v_cursor, m.i_cursor), (192, 72));
}

#[test]
fn resource_manager_reuses_freed_space() {
    let mut rm = ResourceManager::new();
    let first = rm.update_chunk_mesh(1, &mesh(8, 12));
    rm.update_chunk_mesh(2, &mesh(4, 6));
    assert_eq!(first.allocation.v_range, 0..128);
    rm.unload_chunk(1);
    assert!(!rm.meshes.contains_key(&1));
    assert_eq!(rm.megabuffer.free_vertex_region, vec![0..128]);
    let third = rm.update_chunk_mesh(3, &mesh(4, 6));
    assert_eq!(third.allocation.v_range, 0..64);
    assert_eq!(third.allocation.i_range, 0..24);
    assert_eq!(rm.megabuffer.free_vertex_region, vec![64..128]);
    assert_eq!(rm.meshes.len(), 2);
}

#[test]
fn unloading_an_unknown_chunk_changes_nothing() {
    let mut rm = ResourceManager::new();
    rm.update_chunk_mesh(1, &mesh(4, 6));
    rm.unload_chunk(99);
    assert_eq!(rm.meshes.len(), 1);
    assert!(rm.megabuffer.free_vertex_region.is_empty());
}

#[test]
fn pipeline_types_compare() {
    assert!(PipelineType::Sky == PipelineType::Sky);
    assert!(PipelineType::Default != PipelineType::DebugWireframe);
}

#[test]
fn live_meshes_never_share_space() {
    let mut rm = ResourceManager::new();
    let a = rm.update_chunk_mesh(1, &mesh(8, 12));
    let b = rm.update_chunk_mesh(2, &mesh(4, 6));
    rm.unload_chunk(1);
    let c = rm.update_chunk_mesh(3, &mesh(2, 3));
    let d = rm.update_chunk_mesh(4, &mesh(6, 9));
    let live = [b, c, d];
    for (i, x) in live.iter().enumerate() {
        for y in live.iter().skip(i + 1) {
            let (xv, yv) = (&x.allocation.v_range, &y.allocation.v_range);
            assert!(xv.end <= yv.start || yv.end <= xv.start);
            let (xi, yi) = (&x.allocation.i_range, &y.allocation.i_range);
            assert!(xi.end <= yi.start || yi.end <= xi.start);
        }
    }
    assert_eq!(a.allocation.v_range, 0..128);
}
