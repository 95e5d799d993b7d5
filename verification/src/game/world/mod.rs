pub mod biomes;
pub mod generator;

use vstd::prelude::*;
pub use generator::GenerationType;
use std::sync::Arc;
use rustc_hash::FxHashMap;
use crate::engine::data::{chunk_key, pack_chunk_coords, BlockTypes};
use crate::game::chunk::{block_index, Chunk};

verus! {

/// `i32::div_euclid`: the quotient `q` of Euclidean division, with
/// `x == q * rhs + r` and `0 <= r < |rhs|`; it panics when `rhs` is 0 or on
/// `i32::MIN / -1`.
pub assume_specification[<i32>::div_euclid](x: i32, rhs: i32) -> (q: i32)
    requires
        rhs != 0,
        !(x == i32::MIN && rhs == -1),
    ensures
        q as int == x as int / rhs as int,
;

/// `i32::rem_euclid`: the remainder `r` of Euclidean division, `0 <= r < |rhs|`;
/// it panics when `rhs` is 0 or on `i32::MIN % -1`.
pub assume_specification[<i32>::rem_euclid](x: i32, rhs: i32) -> (r: i32)
    requires
        rhs != 0,
        !(x == i32::MIN && rhs == -1),
    ensures
        r as int == x as int % rhs as int,
;

/// Loaded chunks by packed chunk position.
pub type ChunkMap = FxHashMap<u64, Arc<Chunk>>;

/// The chunks that a `ChunkMap` holds, by key.
pub uninterp spec fn chunk_map(m: ChunkMap) -> Map<u64, Chunk>;

/// `FxHashMap::default`: no chunks.
#[verifier::external_body]
pub(crate) fn chunk_map_new() -> (fresh: ChunkMap)
    ensures
        chunk_map(fresh).is_empty(),
{
    FxHashMap::default()
}

/// `FxHashMap::get`: the chunk stored under `k`, if any.
#[verifier::external_body]
pub(crate) fn chunk_map_get(m: &ChunkMap, k: u64) -> (r: Option<&Arc<Chunk>>)
    ensures
        (match r {
            Some(c) => chunk_map(*m).contains_key(k) && **c == chunk_map(*m)[k],
            None => !chunk_map(*m).contains_key(k),
        }),
{
    m.get(&k)
}

/// `FxHashMap::contains_key`.
#[verifier::external_body]
pub(crate) fn chunk_map_contains(m: &ChunkMap, k: u64) -> (found: bool)
    ensures
        found == chunk_map(*m).contains_key(k),
{
    m.contains_key(&k)
}

/// `FxHashMap::insert`: `k` maps to `c` afterwards, whatever it held before.
#[verifier::external_body]
pub(crate) fn chunk_map_insert(m: &mut ChunkMap, k: u64, c: Arc<Chunk>)
    ensures
        chunk_map(*final(m)) == chunk_map(*old(m)).insert(k, *c),
{
    m.insert(k, c);
}

/// `FxHashMap::remove`: `k` maps to nothing afterwards.
#[verifier::external_body]
pub(crate) fn chunk_map_remove(m: &mut ChunkMap, k: u64)
    ensures
        chunk_map(*final(m)) == chunk_map(*old(m)).remove(k),
{
    m.remove(&k);
}

/// The keys of a `ChunkMap` collected by `keys`: each key
/// once, in the map's own (unspecified) order.
#[verifier::external_body]
pub(crate) fn chunk_map_keys(m: &ChunkMap) -> (v: Vec<u64>)
    ensures
        v@.to_set() == chunk_map(*m).dom(),
        v@.no_duplicates(),
{
    m.keys().cloned().collect()
}

/// `rand::random::<i32>()`: any `i32`.
#[verifier::external_body]
fn random_seed() -> i32 {
    rand::random::<i32>()
}

/// The settings a world is created with.
#[derive(Clone, Copy, Debug)]
pub struct WorldConfig {
    pub seed: i32,
    pub generator: GenerationType,
    pub version: u8,
}

/// A random seed, the test generator, format version 0.
impl Default for WorldConfig {
    fn default() -> (c: Self)
        ensures
            c.generator == GenerationType::Test,
            c.version == 0,
    {
        WorldConfig { seed: random_seed(), generator: GenerationType::Test, version: 0 }
    }
}

/// The loaded chunks of a world, by packed chunk position.
pub struct World {
    pub metadata: WorldConfig,
    pub chunks: ChunkMap,
}

/// The chunk that holds world block `g` along one axis.
pub open spec fn chunk_of(g: int) -> int {
    g / 32
}

/// The position of world block `g` inside its chunk along one axis.
pub open spec fn local_of(g: int) -> int {
    g % 32
}

/// World block `g` is block `local_of(g)` of chunk `chunk_of(g)` along its
/// axis, and every world block lies in exactly one chunk.
pub proof fn lemma_world_block_split(g: int)
    ensures
        0 <= local_of(g) < 32,
        32 * chunk_of(g) + local_of(g) == g,
        forall|c: int, l: int| 0 <= l < 32 && #[trigger] (32 * c + l) == g ==> c == chunk_of(g) && l == local_of(g),
{
    assert forall|c: int, l: int| 0 <= l < 32 && #[trigger] (32 * c + l) == g implies c == chunk_of(g) && l
        == local_of(g) by {
        vstd::arithmetic::div_mod::lemma_fundamental_div_mod_converse(g, 32, c, l);
    }
}

impl World {
    /// The loaded chunks, by key.
    pub open spec fn loaded(&self) -> Map<u64, Chunk> {
        chunk_map(self.chunks)
    }

    /// Every loaded chunk holds one block per cell.
    pub open spec fn wf(&self) -> bool {
        forall|k: u64| #[trigger] self.loaded().contains_key(k) ==> self.loaded()[k].wf()
    }

    /// The block at world block coordinates `(gx, gy, gz)`: read from the chunk
    /// that holds it, or air when that chunk is not loaded.
    pub open spec fn block_at(&self, gx: int, gy: int, gz: int) -> BlockTypes {
        let key = chunk_key(chunk_of(gx), chunk_of(gy), chunk_of(gz));
        if self.loaded().contains_key(key as u64) {
            self.loaded()[key as u64].block(local_of(gx), local_of(gy), local_of(gz))
        } else {
            BlockTypes::AIR
        }
    }

    /// A world with the given settings and no chunks loaded.
    pub fn new(config: WorldConfig) -> (w: Self)
        ensures
            w.metadata == config,
            w.loaded() == Map::<u64, Chunk>::empty(),
            w.wf(),
    {
        World { metadata: config, chunks: chunk_map_new() }
    }

    /// The block at world block coordinates `(gx, gy, gz)` (the floor of a
    /// world position), or air where no chunk is loaded.
    pub fn get_block_at(&self, gx: i32, gy: i32, gz: i32) -> (b: BlockTypes)
        requires
            self.wf(),
        ensures
            b == self.block_at(gx as int, gy as int, gz as int),
    {
        let cx = gx.div_euclid(32);
        let cy = gy.div_euclid(32);
        let cz = gz.div_euclid(32);

        let lx = gx.rem_euclid(32) as usize;
        let ly = gy.rem_euclid(32) as usize;
        let lz = gz.rem_euclid(32) as usize;

        let key = pack_chunk_coords(cx, cy, cz);
        match chunk_map_get(&self.chunks, key) {
            Some(chunk) => {
                proof {
                    assert(self.loaded().contains_key(key));
                    assert(block_index(lx as int, ly as int, lz as int) < 32768);
                }
                chunk.get(lx, ly, lz)
            },
            None => BlockTypes::AIR,
        }
    }
}

} // verus!
