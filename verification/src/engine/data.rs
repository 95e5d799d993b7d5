use vstd::prelude::*;

verus! {

/// Edge length of a chunk, in blocks.
pub const CHUNK_SIZE: usize = 32;

/// Coordinate of a chunk in the chunk grid.
pub type ChunkCoords = i32;

/// The kinds of block a chunk holds.
#[derive(Clone, Copy, Debug, PartialEq, Eq, Structural)]
pub enum BlockTypes {
    AIR,
    STONE,
}

/// Number the GPU reads for a block type (the enum's declaration order).
pub open spec fn block_code(b: BlockTypes) -> int {
    match b {
        BlockTypes::AIR => 0,
        BlockTypes::STONE => 1,
    }
}

/// One corner of a block face, as the GPU reads it.
/// `packed` holds the block type in bits 0..8 and the face direction in bits 8..11.
#[derive(Clone, Copy, Debug)]
pub struct Vertex {
    pub position: [i32; 3],
    pub packed: u32,
}

/// Bytes that one `Vertex` takes in a vertex buffer: three `i32` and one `u32`.
pub const VERTEX_STRIDE: u64 = 16;

/// Position of a chunk in the chunk grid.
#[derive(Clone, Copy, Debug, PartialEq, Eq, Structural)]
pub struct ChunkPos {
    pub x: ChunkCoords,
    pub y: ChunkCoords,
    pub z: ChunkCoords,
}

/// Number of distinct values of one packed 21-bit field.
pub open spec fn field_span() -> int {
    0x200000
}

/// The 21 low bits of `v`, read as an unsigned number.
pub open spec fn low21(v: int) -> int {
    v % field_span()
}

/// A 21-bit field read as a two's-complement signed number.
pub open spec fn signed21(f: int) -> int {
    if f >= 0x100000 {
        f - field_span()
    } else {
        f
    }
}

/// The key of chunk `(x, y, z)`: the low 21 bits of each coordinate,
/// x in bits 0..21, y in bits 21..42, z in bits 42..63.
pub open spec fn chunk_key(x: int, y: int, z: int) -> int {
    low21(z) * 0x40000000000 + low21(y) * 0x200000 + low21(x)
}

/// The chunk a key stands for: each 21-bit field sign-extended.
pub open spec fn key_pos(key: int) -> ChunkPos {
    ChunkPos {
        x: signed21(key % field_span()) as i32,
        y: signed21((key / field_span()) % field_span()) as i32,
        z: signed21((key / 0x40000000000) % field_span()) as i32,
    }
}

/// Coordinates that survive packing: those that fit in 21 signed bits.
pub open spec fn packable(v: int) -> bool {
    -0x100000 <= v < 0x100000
}

pub open spec fn packable_pos(p: ChunkPos) -> bool {
    packable(p.x as int) && packable(p.y as int) && packable(p.z as int)
}

proof fn lemma_field_of_i32(v: i32)
    ensures
        (v as u64 & 0x1FFFFF) as int == low21(v as int),
{
    assert((v as u64 & 0x1FFFFF) as int == (v as int) % 0x200000) by (bit_vector);
}

/// Packs a chunk position into a 64-bit key.
pub fn pack_chunk_coords(x: i32, y: i32, z: i32) -> (key: u64)
    ensures
        key as int == chunk_key(x as int, y as int, z as int),
{
    let fx = x as u64 & 0x1FFFFF;
    let fy = y as u64 & 0x1FFFFF;
    let fz = z as u64 & 0x1FFFFF;
    proof {
        lemma_field_of_i32(x);
        lemma_field_of_i32(y);
        lemma_field_of_i32(z);
        assert((fz << 42) | (fy << 21) | fx == fz * 0x40000000000 + fy * 0x200000 + fx) by (bit_vector)
            requires
                fx < 0x200000,
                fy < 0x200000,
                fz < 0x200000,
        ;
    }
    (fz << 42) | (fy << 21) | fx
}


/// Sign-extends a 21-bit field held in the low bits of `n`.
fn sign_extend(n: i32) -> (r: i32)
    requires
        0 <= n < 0x200000,
    ensures
        r as int == signed21(n as int),
{
    if (n & 0x100000) != 0 {
        proof {
            assert((n & 0x100000) != 0 ==> (n | !0x1FFFFFi32) == n - 0x200000) by (bit_vector)
                requires
                    0 <= n < 0x200000,
            ;
            assert((n & 0x100000) != 0 ==> n >= 0x100000) by (bit_vector)
                requires
                    0 <= n < 0x200000,
            ;
        }
        n | !0x1FFFFF
    } else {
        proof {
            assert((n & 0x100000) == 0 ==> n < 0x100000) by (bit_vector)
                requires
                    0 <= n < 0x200000,
            ;
        }
        n
    }
}

/// Unpacks a key made by `pack_chunk_coords` into its chunk position.
pub fn unpack_chunk_coords(packed: u64) -> (pos: ChunkPos)
    ensures
        pos == key_pos(packed as int),
{
    let fx = packed & 0x1FFFFF;
    let fy = (packed >> 21) & 0x1FFFFF;
    let fz = (packed >> 42) & 0x1FFFFF;
    proof {
        assert(fx == packed % 0x200000 && fx < 0x200000) by (bit_vector)
            requires
                fx == packed & 0x1FFFFF,
        ;
        assert(fy == (packed / 0x200000) % 0x200000 && fy < 0x200000) by (bit_vector)
            requires
                fy == (packed >> 21) & 0x1FFFFF,
        ;
        assert(fz == (packed / 0x40000000000) % 0x200000 && fz < 0x200000) by (bit_vector)
            requires
                fz == (packed >> 42) & 0x1FFFFF,
        ;
    }
    let x = fx as i32;
    let y = fy as i32;
    let z = fz as i32;
    ChunkPos { x: sign_extend(x), y: sign_extend(y), z: sign_extend(z) }
}

proof fn lemma_fields_of_key(k: u64, fx: u64, fy: u64, fz: u64)
    requires
        fx < 0x200000,
        fy < 0x200000,
        fz < 0x200000,
        k == fz * 0x40000000000 + fy * 0x200000 + fx,
    ensures
        k % 0x200000 == fx,
        (k / 0x200000) % 0x200000 == fy,
        (k / 0x40000000000) % 0x200000 == fz,
{
    assert(k % 0x200000 == fx && (k / 0x200000) % 0x200000 == fy && (k / 0x40000000000)
        % 0x200000 == fz) by (bit_vector)
        requires
            fx < 0x200000,
            fy < 0x200000,
            fz < 0x200000,
            k == fz * 0x40000000000 + fy * 0x200000 + fx,
    ;
}

/// Unpacking the key of a chunk gives the chunk back, for every chunk whose
/// coordinates fit in 21 signed bits.
pub proof fn lemma_unpack_pack(x: i32, y: i32, z: i32)
    requires
        packable(x as int),
        packable(y as int),
        packable(z as int),
    ensures
        key_pos(chunk_key(x as int, y as int, z as int)) == (ChunkPos { x, y, z }),
{
    let fx = low21(x as int);
    let fy = low21(y as int);
    let fz = low21(z as int);
    let k = chunk_key(x as int, y as int, z as int);
    assert(0 <= k < 0x8000000000000000);
    lemma_fields_of_key(k as u64, fx as u64, fy as u64, fz as u64);
}

/// Packing the position that a key stands for gives the key back, for every
/// key below 2^63 (the bits that the three fields use).
pub proof fn lemma_pack_unpack(key: u64)
    requires
        key < 0x8000000000000000u64,
    ensures
        chunk_key(
            key_pos(key as int).x as int,
            key_pos(key as int).y as int,
            key_pos(key as int).z as int,
        ) == key as int,
{
    let fx: u64 = key % 0x200000;
    let fy: u64 = (key / 0x200000) % 0x200000;
    let fz: u64 = (key / 0x40000000000) % 0x200000;
    assert(key == fz * 0x40000000000 + fy * 0x200000 + fx) by (bit_vector)
        requires
            key < 0x8000000000000000u64,
            fx == key % 0x200000,
            fy == (key / 0x200000) % 0x200000,
            fz == (key / 0x40000000000) % 0x200000,
    ;
    assert(low21(signed21(fx as int)) == fx);
    assert(low21(signed21(fy as int)) == fy);
    assert(low21(signed21(fz as int)) == fz);
}

/// Chunks whose coordinates fit in 21 signed bits have distinct keys.
pub proof fn lemma_key_injective(a: ChunkPos, b: ChunkPos)
    requires
        packable_pos(a),
        packable_pos(b),
        chunk_key(a.x as int, a.y as int, a.z as int) == chunk_key(b.x as int, b.y as int, b.z as int),
    ensures
        a == b,
{
    lemma_unpack_pack(a.x, a.y, a.z);
    lemma_unpack_pack(b.x, b.y, b.z);
}

} // verus!
