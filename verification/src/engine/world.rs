use vstd::prelude::*;
use std::collections::HashMap;
use crate::engine::data::{BlockTypes, ChunkPos};
use crate::game::chunk::{chunk_volume, Chunk};

verus! {

broadcast use vstd::std_specs::hash::group_hash_axioms;

/// The key of chunk `(x, y, z)` of a bounded world: x in bits 0..16, y in
/// bits 16..32, z in bits 32..48.
pub open spec fn world_key(x: u16, y: u16, z: u16) -> int {
    z as int * 0x100000000 + y as int * 0x10000 + x as int
}

/// A bounded world of chunks at unsigned 16-bit chunk coordinates.
pub struct World {
    pub chunks: HashMap<u64, Chunk>,
}

impl World {
    /// A world whose only chunk is a stone-filled chunk at (0, 0, 0).
    pub fn new() -> (w: Self)
        ensures
            w.chunks@.dom() == set![0u64],
            w.chunks@[0].wf(),
            w.chunks@[0].position == (ChunkPos { x: 0, y: 0, z: 0 }),
            forall|i: int| 0 <= i < chunk_volume() ==> #[trigger] w.chunks@[0].data@[i] == BlockTypes::STONE,
    {
        let mut chunks: HashMap<u64, Chunk> = HashMap::new();
        let chunk = Chunk::new(Some(BlockTypes::STONE), ChunkPos { x: 0, y: 0, z: 0 });
        let key = Self::pack_coords(0, 0, 0);
        chunks.insert(key, chunk);
        proof {
            assert(chunks@.dom() =~= set![0u64]);
        }
        World { chunks }
    }

    /// Packs chunk coordinates into a key: x in bits 0..16, y in 16..32, z in 32..48.
    pub fn pack_coords(x: u16, y: u16, z: u16) -> (key: u64)
        ensures
            key as int == world_key(x, y, z),
    {
        let k = ((z as u64) << 32) | ((y as u64) << 16) | (x as u64);
        proof {
            let (xx, yy, zz) = (x as u64, y as u64, z as u64);
            assert((zz << 32) | (yy << 16) | xx == zz * 0x100000000 + yy * 0x10000 + xx) by (bit_vector)
                requires
                    xx < 0x10000,
                    yy < 0x10000,
                    zz < 0x10000,
            ;
        }
        k
    }

    /// The chunk at `(x, y, z)`, if there is one.
    pub fn get_chunk(&self, x: u16, y: u16, z: u16) -> (c: Option<&Chunk>)
        ensures
            c == (if self.chunks@.contains_key(world_key(x, y, z) as u64) {
                Some(&self.chunks@[world_key(x, y, z) as u64])
            } else {
                None
            }),
    {
        let key = Self::pack_coords(x, y, z);
        self.chunks.get(&key)
    }
}

/// Distinct chunk coordinates have distinct keys.
pub proof fn lemma_world_key_injective(a: (u16, u16, u16), b: (u16, u16, u16))
    requires
        world_key(a.0, a.1, a.2) == world_key(b.0, b.1, b.2),
    ensures
        a == b,
{
    let (ax, ay, az) = (a.0 as u64, a.1 as u64, a.2 as u64);
    let (bx, by, bz) = (b.0 as u64, b.1 as u64, b.2 as u64);
    assert(ax == bx && ay == by && az == bz) by (bit_vector)
        requires
            ax < 0x10000,
            ay < 0x10000,
            az < 0x10000,
            bx < 0x10000,
            by < 0x10000,
            bz < 0x10000,
            az * 0x100000000 + ay * 0x10000 + ax == bz * 0x100000000 + by * 0x10000 + bx,
    ;
}

} // verus!
