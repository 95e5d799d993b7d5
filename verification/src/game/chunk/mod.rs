pub mod manager;

use vstd::prelude::*;
use crate::engine::data::{BlockTypes, ChunkPos, CHUNK_SIZE};

verus! {

/// Number of blocks in a chunk.
pub open spec fn chunk_volume() -> int {
    (CHUNK_SIZE * CHUNK_SIZE * CHUNK_SIZE) as int
}

/// Where block `(x, y, z)` of a chunk is stored: x is the slowest axis, z the fastest.
pub open spec fn block_index(x: int, y: int, z: int) -> int {
    x * (CHUNK_SIZE * CHUNK_SIZE) as int + y * CHUNK_SIZE as int + z
}

/// Coordinates inside a chunk.
pub open spec fn in_chunk(x: int, y: int, z: int) -> bool {
    0 <= x < CHUNK_SIZE as int && 0 <= y < CHUNK_SIZE as int && 0 <= z < CHUNK_SIZE as int
}

/// A cube of blocks at a position of the chunk grid.
pub struct Chunk {
    pub position: ChunkPos,
    pub data: Vec<BlockTypes>,
    pub is_empty: bool,
    pub is_solid: bool,
}

impl Chunk {
    /// A chunk holds exactly one block per cell.
    pub open spec fn wf(&self) -> bool {
        self.data@.len() == chunk_volume()
    }

    /// The block at `(x, y, z)`.
    pub open spec fn block(&self, x: int, y: int, z: int) -> BlockTypes {
        self.data@[block_index(x, y, z)]
    }

    /// A chunk at `pos`, filled with `fill`, or with air when `fill` is `None`.
    pub fn new(fill: Option<BlockTypes>, pos: ChunkPos) -> (chunk: Self)
        ensures
            chunk.wf(),
            chunk.position == pos,
            forall|i: int|
                0 <= i < chunk_volume() ==> #[trigger] chunk.data@[i] == match fill {
                    Some(b) => b,
                    None => BlockTypes::AIR,
                },
            chunk.is_empty == !(fill matches Some(b) && b != BlockTypes::AIR),
            chunk.is_solid == (fill matches Some(b) && b != BlockTypes::AIR),
    {
        let total_size = CHUNK_SIZE * CHUNK_SIZE * CHUNK_SIZE;
        let mut is_solid = false;
        let mut is_empty = true;
        let mut block = BlockTypes::AIR;
        if let Some(b) = fill {
            if b != BlockTypes::AIR {
                block = b;
                is_empty = false;
                is_solid = true;
            }
        }
        let data = vec![block; total_size];
        Chunk { position: pos, data, is_empty, is_solid }
    }

    /// Index into `data` of block `(x, y, z)`.
    pub fn idx(x: usize, y: usize, z: usize) -> (i: usize)
        requires
            block_index(x as int, y as int, z as int) < chunk_volume(),
        ensures
            i as int == block_index(x as int, y as int, z as int),
    {
        (x * CHUNK_SIZE * CHUNK_SIZE) + (y * CHUNK_SIZE) + z
    }

    /// The block at `(x, y, z)`.
    pub fn get(&self, x: usize, y: usize, z: usize) -> (b: BlockTypes)
        requires
            self.wf(),
            block_index(x as int, y as int, z as int) < chunk_volume(),
        ensures
            b == self.block(x as int, y as int, z as int),
    {
        self.data[Self::idx(x, y, z)]
    }

    /// Puts `block` at `(x, y, z)`; the chunk is no longer empty afterwards.
    pub fn set(&mut self, x: usize, y: usize, z: usize, block: BlockTypes)
        requires
            old(self).wf(),
            block_index(x as int, y as int, z as int) < chunk_volume(),
        ensures
            final(self).wf(),
            final(self).data@ == old(self).data@.update(block_index(x as int, y as int, z as int), block),
            final(self).position == old(self).position,
            final(self).is_solid == old(self).is_solid,
            !final(self).is_empty,
    {
        let i = Self::idx(x, y, z);
        self.data.set(i, block);
        self.is_empty = false;
    }
}

/// Distinct cells of a chunk are stored in distinct places, all inside `data`.
pub proof fn lemma_block_index_injective(a: (int, int, int), b: (int, int, int))
    requires
        in_chunk(a.0, a.1, a.2),
        in_chunk(b.0, b.1, b.2),
    ensures
        0 <= block_index(a.0, a.1, a.2) < chunk_volume(),
        block_index(a.0, a.1, a.2) == block_index(b.0, b.1, b.2) ==> a == b,
{
    let (ax, ay, az) = (a.0 as u32, a.1 as u32, a.2 as u32);
    let (bx, by, bz) = (b.0 as u32, b.1 as u32, b.2 as u32);
    assert(ax * 1024 + ay * 32 + az == bx * 1024 + by * 32 + bz ==> ax == bx && ay == by && az == bz)
        by (bit_vector)
        requires
            ax < 32,
            ay < 32,
            az < 32,
            bx < 32,
            by < 32,
            bz < 32,
    ;
}

/// Reading a cell after `set` gives the block written there when it is the
/// cell written, and what the cell held before otherwise.
pub proof fn lemma_get_after_set(
    before: Chunk,
    after: Chunk,
    written: (int, int, int),
    block: BlockTypes,
    read: (int, int, int),
)
    requires
        before.wf(),
        in_chunk(written.0, written.1, written.2),
        in_chunk(read.0, read.1, read.2),
        after.data@ == before.data@.update(block_index(written.0, written.1, written.2), block),
    ensures
        after.block(read.0, read.1, read.2) == if read == written {
            block
        } else {
            before.block(read.0, read.1, read.2)
        },
{
    lemma_block_index_injective(read, written);
    lemma_block_index_injective(written, read);
}

/// A hasher that hands back the last `u64` written to it, for keys that are
/// already well spread (packed chunk coordinates).
#[derive(Default)]
pub struct IdentityHasher {
    state: u64,
}

impl IdentityHasher {
    /// The current hash.
    pub closed spec fn state(&self) -> u64 {
        self.state
    }

    /// Feeds a `u64`: it becomes the hash.
    pub fn write_u64(&mut self, i: u64)
        ensures
            final(self).state() == i,
    {
        self.state = i
    }

    /// The hash of what was written last.
    pub fn finish(&self) -> (h: u64)
        ensures
            h == self.state(),
    {
        self.state
    }
}

/// Builds `IdentityHasher`s.
#[derive(Default)]
pub struct BuildIdentityHasher;

impl BuildIdentityHasher {
    /// A fresh hasher, whose hash is 0 until something is written.
    pub fn build_hasher(&self) -> (h: IdentityHasher)
        ensures
            h.state() == 0,
    {
        IdentityHasher { state: 0 }
    }
}

} // verus!
