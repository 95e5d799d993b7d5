use std::sync::Arc;
use voxel_engine::engine::data::{pack_chunk_coords, BlockTypes, ChunkPos};
use voxel_engine::engine::mods::blocks::BlockRegistry;
use voxel_engine::game::chunk::manager::{load_order, neighbor_position, ChunkManager};
use voxel_engine::game::chunk::Chunk;
use voxel_engine::game::world::{GenerationType, World, WorldConfig};
use voxel_engine::render::manager::ResourceManager;

fn pos(x: i32, y: i32, z: i32) -> ChunkPos {
    ChunkPos { x, y, z }
}

fn config() -> WorldConfig {
    WorldConfig { seed: 7, generator: GenerationType::Test, version: 0 }
}

fn dist(p: ChunkPos, c: ChunkPos) -> i32 {
    let (dx, dy, dz) = (p.x - c.x, p.y - c.y, p.z - c.z);
    dx * dx + dy * dy + dz * dz
}

#[test]
fn load_order_radius_one() {
    let order = load_order(pos(10, 20, 30), 1);
    assert_eq!(order.len(), 27);
    assert_eq!(order[0], pos(10, 20, 30));
    assert_eq!(
        &order[1..7],
        &[pos(9, 20, 30), pos(10, 19, 30), pos(10, 20, 29), pos(10, 20, 31), pos(10, 21, 30), pos(11, 20, 30)]
    );
    assert_eq!(order[26], pos(11, 21, 31));
}

#[test]
fn load_order_is_sorted_and_complete() {
    let c = pos(-3, 4, 100);
    let order = load_order(c, 3);
    assert_eq!(order.len(), 7 * 7 * 7);
    for w in order.windows(2) {
        let (a, b) = (w[0], w[1]);
        assert!(dist(a, c) < dist(b, c) || (dist(a, c) == dist(b, c) && (a.x, a.y, a.z) < (b.x, b.y, b.z)));
    }
    for x in -3..=3 {
        for y in -3..=3 {
            for z in -3..=3 {
                assert!(order.contains(&pos(c.x + x, c.y + y, c.z + z)));
            }
        }
    }
}

#[test]
fn load_order_negative_radius_is_empty() {
    assert!(load_order(pos(0, 0, 0), -1).is_empty());
    assert_eq!(load_order(pos(0, 0, 0), 0), vec![pos(0, 0, 0)]);
}

#[test]
fn get_load_commands_only_when_player_moves() {
    let mut m = ChunkManager::new(2, BlockRegistry::new());
    assert!(m.get_load_commands(pos(0, 0, 0)).is_empty());
    let cmds = m.get_load_commands(pos(1, 0, 0));
    assert_eq!(cmds.len(), 125);
    assert_eq!(cmds[0], pos(1, 0, 0));
    assert_eq!(m.last_player_chunk, pos(1, 0, 0));
    assert!(m.get_load_commands(pos(1, 0, 0)).is_empty());
}

#[test]
fn neighbor_position_follows_face_order() {
    let p = pos(5, 5, 5);
    let ns: Vec<ChunkPos> = (0..6).map(|i| neighbor_position(p, i)).collect();
    assert_eq!(ns, vec![pos(5, 5, 6), pos(5, 5, 4), pos(6, 5, 5), pos(4, 5, 5), pos(5, 6, 5), pos(5, 4, 5)]);
}

#[test]
fn schedule_skips_loaded_pending_and_repeated_chunks() {
    let mut world = World::new(config());
    let mut m = ChunkManager::new(1, BlockRegistry::new());
    m.receive_chunk(&mut world, pos(0, 0, 0), Chunk::new(None, pos(0, 0, 0)));
    let first = m.schedule_generation(&world, &vec![pos(0, 0, 0), pos(1, 0, 0), pos(1, 0, 0), pos(2, 0, 0)]);
    assert_eq!(first, vec![pos(1, 0, 0), pos(2, 0, 0)]);
    assert!(m.pending_chunks.contains(&pack_chunk_coords(1, 0, 0)));
    let again = m.schedule_generation(&world, &vec![pos(2, 0, 0), pos(3, 0, 0)]);
    assert_eq!(again, vec![pos(3, 0, 0)]);
}

#[test]
fn receive_chunk_loads_it_and_dirties_its_area() {
    let mut world = World::new(config());
    let mut m = ChunkManager::new(1, BlockRegistry::new());
    m.schedule_generation(&world, &vec![pos(4, 5, 6)]);
    m.receive_chunk(&mut world, pos(4, 5, 6), Chunk::new(Some(BlockTypes::STONE), pos(4, 5, 6)));
    let key = pack_chunk_coords(4, 5, 6);
    assert!(!m.pending_chunks.contains(&key));
    assert!(world.chunks.contains_key(&key));
    assert_eq!(m.dirty_chunks.len(), 7);
    for i in 0..6 {
        let n = neighbor_position(pos(4, 5, 6), i);
        assert!(m.dirty_chunks.contains(&pack_chunk_coords(n.x, n.y, n.z)));
    }
}

#[test]
fn world_get_block_at_reads_the_right_chunk() {
    let mut world = World::new(config());
    let mut m = ChunkManager::new(1, BlockRegistry::new());
    let mut c = Chunk::new(None, pos(-1, 0, 2));
    c.set(31, 3, 1, BlockTypes::STONE);
    m.receive_chunk(&mut world, pos(-1, 0, 2), c);
    assert_eq!(world.get_block_at(-1, 3, 65), BlockTypes::STONE);
    assert_eq!(world.get_block_at(-2, 3, 65), BlockTypes::AIR);
    assert_eq!(world.get_block_at(0, 3, 65), BlockTypes::AIR);
    assert_eq!(world.get_block_at(1000, 1000, 1000), BlockTypes::AIR);
}

#[test]
fn world_config_default_uses_test_generator() {
    let c = WorldConfig::default();
    assert_eq!(c.generator, GenerationType::Test);
    assert_eq!(c.version, 0);
    let w = World::new(c);
    assert!(w.chunks.is_empty());
}

#[test]
fn mesh_jobs_need_the_whole_neighbourhood() {
    let mut world = World::new(config());
    let mut m = ChunkManager::new(1, BlockRegistry::new());
    m.receive_chunk(&mut world, pos(0, 0, 0), Chunk::new(Some(BlockTypes::STONE), pos(0, 0, 0)));
    assert!(m.collect_mesh_jobs(&world).is_empty());
    assert_eq!(m.dirty_chunks.len(), 7);
    for i in 0..6 {
        let n = neighbor_position(pos(0, 0, 0), i);
        m.receive_chunk(&mut world, n, Chunk::new(None, n));
    }
    let jobs = m.collect_mesh_jobs(&world);
    assert_eq!(jobs.len(), 1);
    assert_eq!(jobs[0].0, pack_chunk_coords(0, 0, 0));
    assert!(jobs[0].1.neighbors.iter().all(|n| n.is_some()));
    assert_eq!(jobs[0].1.center.position, pos(0, 0, 0));
    assert!(!m.dirty_chunks.contains(&pack_chunk_coords(0, 0, 0)));
    // the six neighbours, six chunks two steps out along an axis, twelve diagonal ones
    assert_eq!(m.dirty_chunks.len(), 6 + 6 + 12);
}

#[test]
fn neighbourhood_lookup() {
    let mut world = World::new(config());
    let mut m = ChunkManager::new(1, BlockRegistry::new());
    assert!(m.try_get_neighborhood(&world, pos(0, 0, 0)).is_none());
    m.receive_chunk(&mut world, pos(0, 0, 0), Chunk::new(None, pos(0, 0, 0)));
    m.receive_chunk(&mut world, pos(1, 0, 0), Chunk::new(Some(BlockTypes::STONE), pos(1, 0, 0)));
    let nb = m.try_get_neighborhood(&world, pos(0, 0, 0)).unwrap();
    let present: Vec<bool> = nb.neighbors.iter().map(|n| n.is_some()).collect();
    assert_eq!(present, vec![false, false, true, false, false, false]);
    assert!(Arc::ptr_eq(&nb.center, world.chunks.get(&pack_chunk_coords(0, 0, 0)).unwrap()));
}

#[test]
fn unload_drops_chunks_beyond_the_limit() {
    let mut world = World::new(config());
    let mut m = ChunkManager::new(1, BlockRegistry::new());
    let mut rm = ResourceManager::new();
    for p in [pos(0, 0, 0), pos(5, 0, 0), pos(6, 0, 0), pos(0, -6, 0), pos(0, 0, 5)] {
        m.receive_chunk(&mut world, p, Chunk::new(None, p));
    }
    m.schedule_generation(&world, &vec![pos(7, 0, 0)]);
    m.unload_distant_chunks(&mut world, &mut rm);
    let mut keys: Vec<u64> = world.chunks.keys().cloned().collect();
    keys.sort();
    let mut expected = vec![pack_chunk_coords(0, 0, 0), pack_chunk_coords(5, 0, 0), pack_chunk_coords(0, 0, 5)];
    expected.sort();
    assert_eq!(keys, expected);
    assert!(!m.dirty_chunks.contains(&pack_chunk_coords(6, 0, 0)));
    assert!(!m.dirty_chunks.contains(&pack_chunk_coords(0, -6, 0)));
    assert!(m.pending_chunks.contains(&pack_chunk_coords(7, 0, 0)));
}

#[test]
fn staying_in_the_same_chunk_loads_nothing_whatever_the_distance() {
    let mut m = ChunkManager::new(i32::MAX, BlockRegistry::new());
    assert!(m.get_load_commands(pos(0, 0, 0)).is_empty());
    assert_eq!(m.last_player_chunk, pos(0, 0, 0));
}
