use vstd::prelude::*;
use std::sync::Arc;
use rustc_hash::FxHashSet;
use crate::engine::data::{
    chunk_key, key_pos, lemma_pack_unpack, pack_chunk_coords, unpack_chunk_coords, ChunkPos,
};
use crate::engine::mesh::face_normal;
use crate::engine::mods::blocks::BlockRegistry;
use crate::fx::{key_set, key_set_contains, key_set_elements, key_set_insert, key_set_new, key_set_remove};
use crate::game::chunk::Chunk;
use crate::game::world::{chunk_map_contains, chunk_map_get, chunk_map_insert, chunk_map_keys, chunk_map_remove, World};
use crate::render::manager::{GPUMesh, ResourceManager};
use std::ops::Range;

verus! {

/// A chunk together with its six face neighbours, in face order:
/// +z, -z, +x, -x, +y, -y. A neighbour that is not loaded is `None`.
pub struct ChunkNeighborhood {
    pub center: Arc<Chunk>,
    pub neighbors: [Option<Arc<Chunk>>; 6],
}

impl ChunkNeighborhood {
    /// Every chunk in the neighbourhood holds one block per cell.
    pub open spec fn wf(&self) -> bool {
        &&& self.center.wf()
        &&& forall|i: int| 0 <= i < 6 ==> (#[trigger] self.neighbors@[i] matches Some(c) ==> c.wf())
    }
}


/// A chunk position as a triple of integers.
pub open spec fn pos3(p: ChunkPos) -> (int, int, int) {
    (p.x as int, p.y as int, p.z as int)
}

/// Lexicographic order on integer triples: by x, then y, then z.
pub open spec fn lex_lt(a: (int, int, int), b: (int, int, int)) -> bool {
    a.0 < b.0 || (a.0 == b.0 && (a.1 < b.1 || (a.1 == b.1 && a.2 < b.2)))
}

/// Squared distance between two chunk positions.
pub open spec fn dist_sq(p: ChunkPos, c: ChunkPos) -> int {
    (p.x - c.x) * (p.x - c.x) + (p.y - c.y) * (p.y - c.y) + (p.z - c.z) * (p.z - c.z)
}

/// Chunk `p` lies within `d` chunks of `c` along every axis.
pub open spec fn in_load_cube(p: ChunkPos, c: ChunkPos, d: int) -> bool {
    &&& -d <= p.x - c.x <= d
    &&& -d <= p.y - c.y <= d
    &&& -d <= p.z - c.z <= d
}

/// The load order around `c`: nearer chunks first; at equal distance, by x, then y, then z.
pub open spec fn loads_before(a: ChunkPos, b: ChunkPos, c: ChunkPos) -> bool {
    dist_sq(a, c) < dist_sq(b, c) || (dist_sq(a, c) == dist_sq(b, c) && lex_lt(pos3(a), pos3(b)))
}

/// `c` and a cube of radius `d` around it fit in `i32`, and so does the
/// squared distance of any chunk of the cube.
pub open spec fn load_cube_fits(c: ChunkPos, d: int) -> bool {
    d < 0 || (3 * d * d <= i32::MAX && i32::MIN <= c.x - d && c.x + d <= i32::MAX && i32::MIN
        <= c.y - d && c.y + d <= i32::MAX && i32::MIN <= c.z - d && c.z + d <= i32::MAX)
}

/// `buckets[r]` holds, in x-y-z order, the chunks of the cube at squared
/// distance `r` that come before `cur` in x-y-z order.
pub open spec fn buckets_filled(
    buckets: Seq<Seq<ChunkPos>>,
    c: ChunkPos,
    d: int,
    cur: (int, int, int),
) -> bool {
    &&& buckets.len() == 3 * d * d + 1
    &&& forall|r: int, i: int, j: int|
        0 <= r < buckets.len() && 0 <= i < j < buckets[r].len() ==> lex_lt(
            pos3(#[trigger] buckets[r][i]),
            pos3(#[trigger] buckets[r][j]),
        )
    &&& forall|r: int, i: int|
        0 <= r < buckets.len() && 0 <= i < buckets[r].len() ==> {
            let p = #[trigger] buckets[r][i];
            &&& in_load_cube(p, c, d)
            &&& dist_sq(p, c) == r
            &&& lex_lt(pos3(p), cur)
        }
    &&& forall|p: ChunkPos|
        #[trigger] in_load_cube(p, c, d) && lex_lt(pos3(p), cur) ==> buckets[dist_sq(p, c)].contains(p)
}

proof fn lemma_square_bound(v: int, d: int)
    requires
        -d <= v <= d,
    ensures
        0 <= v * v <= d * d,
{
    if v >= 0 {
        assert(0 <= v * v <= d * d) by (nonlinear_arith)
            requires
                0 <= v <= d,
        ;
    } else {
        assert(0 <= (-v) * (-v) <= d * d) by (nonlinear_arith)
            requires
                0 <= -v <= d,
        ;
        assert(v * v == (-v) * (-v)) by (nonlinear_arith);
    }
}

proof fn lemma_dist_bound(p: ChunkPos, c: ChunkPos, d: int)
    requires
        in_load_cube(p, c, d),
    ensures
        0 <= dist_sq(p, c) <= 3 * d * d,
{
    lemma_square_bound(p.x - c.x, d);
    lemma_square_bound(p.y - c.y, d);
    lemma_square_bound(p.z - c.z, d);
    assert(3 * d * d == d * d + d * d + d * d) by (nonlinear_arith);
}

/// The contents of a vector of buckets.
pub open spec fn bucket_views(b: Seq<Vec<ChunkPos>>) -> Seq<Seq<ChunkPos>> {
    Seq::new(b.len(), |r: int| b[r]@)
}

/// Buckets `0..r` one after another.
pub open spec fn flatten_buckets(b: Seq<Seq<ChunkPos>>, r: nat) -> Seq<ChunkPos>
    decreases r,
{
    if r == 0 {
        Seq::empty()
    } else {
        flatten_buckets(b, (r - 1) as nat) + b[r - 1]
    }
}

proof fn lemma_fill_step(b: Seq<Seq<ChunkPos>>, c: ChunkPos, d: int, p: ChunkPos)
    requires
        buckets_filled(b, c, d, pos3(p)),
        in_load_cube(p, c, d),
        0 <= dist_sq(p, c) < b.len(),
    ensures
        buckets_filled(
            b.update(dist_sq(p, c), b[dist_sq(p, c)].push(p)),
            c,
            d,
            (p.x as int, p.y as int, p.z + 1),
        ),
{
    let r = dist_sq(p, c);
    let nb = b.update(r, b[r].push(p));
    let next = (p.x as int, p.y as int, p.z + 1);
    assert forall|s: int, i: int, j: int|
        0 <= s < nb.len() && 0 <= i < j < nb[s].len() implies lex_lt(
        pos3(#[trigger] nb[s][i]),
        pos3(#[trigger] nb[s][j]),
    ) by {
        if s == r && j == b[r].len() {
            assert(nb[s][i] == b[r][i]);
            assert(lex_lt(pos3(b[r][i]), pos3(p)));
        } else if s == r {
            assert(nb[s][i] == b[r][i] && nb[s][j] == b[r][j]);
        } else {
            assert(nb[s] == b[s]);
        }
    }
    assert forall|s: int, i: int| 0 <= s < nb.len() && 0 <= i < nb[s].len() implies {
        let q = #[trigger] nb[s][i];
        &&& in_load_cube(q, c, d)
        &&& dist_sq(q, c) == s
        &&& lex_lt(pos3(q), next)
    } by {
        if s == r && i == b[r].len() {
            assert(nb[s][i] == p);
        } else if s == r {
            assert(nb[s][i] == b[r][i]);
        } else {
            assert(nb[s] == b[s]);
        }
    }
    assert forall|q: ChunkPos| #[trigger] in_load_cube(q, c, d) && lex_lt(pos3(q), next) implies nb[dist_sq(
        q,
        c,
    )].contains(q) by {
        lemma_dist_bound(q, c, d);
        if lex_lt(pos3(q), pos3(p)) {
            let k = choose|k: int| 0 <= k < b[dist_sq(q, c)].len() && b[dist_sq(q, c)][k] == q;
            if dist_sq(q, c) == r {
                assert(nb[r][k] == q);
            } else {
                assert(nb[dist_sq(q, c)] == b[dist_sq(q, c)]);
            }
        } else {
            assert(q == p);
            assert(nb[r][b[r].len() as int] == p);
        }
    }
}

proof fn lemma_fill_same_prefix(
    b: Seq<Seq<ChunkPos>>,
    c: ChunkPos,
    d: int,
    cur1: (int, int, int),
    cur2: (int, int, int),
)
    requires
        buckets_filled(b, c, d, cur1),
        forall|q: ChunkPos| in_load_cube(q, c, d) ==> (lex_lt(pos3(q), cur1) <==> lex_lt(pos3(q), cur2)),
    ensures
        buckets_filled(b, c, d, cur2),
{
    assert forall|s: int, i: int| 0 <= s < b.len() && 0 <= i < b[s].len() implies lex_lt(
        pos3(#[trigger] b[s][i]),
        cur2,
    ) by {
        assert(in_load_cube(b[s][i], c, d));
    }
}

proof fn lemma_flatten(b: Seq<Seq<ChunkPos>>, c: ChunkPos, d: int, r: nat)
    requires
        buckets_filled(b, c, d, (c.x + d + 1, c.y - d, c.z - d)),
        r <= b.len(),
    ensures
        forall|i: int, j: int|
            0 <= i < j < flatten_buckets(b, r).len() ==> loads_before(
                #[trigger] flatten_buckets(b, r)[i],
                #[trigger] flatten_buckets(b, r)[j],
                c,
            ),
        forall|i: int|
            0 <= i < flatten_buckets(b, r).len() ==> in_load_cube(#[trigger] flatten_buckets(b, r)[i], c, d)
                && dist_sq(flatten_buckets(b, r)[i], c) < r,
        forall|q: ChunkPos|
            #[trigger] in_load_cube(q, c, d) && dist_sq(q, c) < r ==> flatten_buckets(b, r).contains(q),
    decreases r,
{
    if r == 0 {
        assert forall|q: ChunkPos| #[trigger] in_load_cube(q, c, d) && dist_sq(q, c) < r implies flatten_buckets(
            b,
            r,
        ).contains(q) by {
            lemma_dist_bound(q, c, d);
        }
    } else {
        let r1 = (r - 1) as nat;
        lemma_flatten(b, c, d, r1);
        let f0 = flatten_buckets(b, r1);
        let br = b[r - 1];
        let f = flatten_buckets(b, r);
        assert(f == f0 + br);
        assert forall|i: int, j: int| 0 <= i < j < f.len() implies loads_before(
            #[trigger] f[i],
            #[trigger] f[j],
            c,
        ) by {
            if j < f0.len() {
                assert(f[i] == f0[i] && f[j] == f0[j]);
            } else if i < f0.len() {
                assert(f[i] == f0[i] && f[j] == br[j - f0.len()]);
            } else {
                assert(f[i] == br[i - f0.len()] && f[j] == br[j - f0.len()]);
            }
        }
        assert forall|i: int| 0 <= i < f.len() implies in_load_cube(#[trigger] f[i], c, d) && dist_sq(
            f[i],
            c,
        ) < r by {
            if i < f0.len() {
                assert(f[i] == f0[i]);
            } else {
                assert(f[i] == br[i - f0.len()]);
            }
        }
        assert forall|q: ChunkPos| #[trigger] in_load_cube(q, c, d) && dist_sq(q, c) < r implies f.contains(
            q,
        ) by {
            if dist_sq(q, c) < r1 {
                let k = choose|k: int| 0 <= k < f0.len() && f0[k] == q;
                assert(f[k] == q);
            } else {
                assert(lex_lt(pos3(q), (c.x + d + 1, c.y - d, c.z - d)));
                assert(br.contains(q));
                let k = choose|k: int| 0 <= k < br.len() && br[k] == q;
                assert(f[f0.len() + k] == q);
            }
        }
    }
}

/// Every chunk within `d` of `c` along each axis, nearest first and, at equal
/// distance, in x-y-z order (the order a stable sort by distance leaves the
/// cube in when it is generated x-major).
pub fn load_order(c: ChunkPos, d: i32) -> (order: Vec<ChunkPos>)
    requires
        load_cube_fits(c, d as int),
    ensures
        forall|i: int, j: int|
            0 <= i < j < order@.len() ==> loads_before(#[trigger] order@[i], #[trigger] order@[j], c),
        forall|i: int| 0 <= i < order@.len() ==> in_load_cube(#[trigger] order@[i], c, d as int),
        forall|p: ChunkPos| #[trigger] in_load_cube(p, c, d as int) ==> order@.contains(p),
{
    let mut order: Vec<ChunkPos> = Vec::new();
    if d < 0 {
        return order;
    }
    let ghost di = d as int;
    proof {
        assert(3 * di <= i32::MAX) by (nonlinear_arith)
            requires
                0 <= di,
                3 * di * di <= i32::MAX,
        ;
        assert(di <= 30000) by (nonlinear_arith)
            requires
                0 <= di,
                3 * di * di <= i32::MAX,
        ;
    }
    let max_r = (3 * d * d) as usize;
    let mut buckets: Vec<Vec<ChunkPos>> = Vec::new();
    let mut k: usize = 0;
    while k <= max_r
        invariant
            0 <= d,
            max_r == 3 * di * di,
            max_r <= i32::MAX,
            di == d as int,
            k <= max_r + 1,
            buckets@.len() == k,
            forall|r: int| 0 <= r < k ==> (#[trigger] buckets@[r])@.len() == 0,
        decreases max_r + 1 - k,
    {
        buckets.push(Vec::new());
        k = k + 1;
    }
    proof {
        let bv = bucket_views(buckets@);
        assert forall|q: ChunkPos| #[trigger] in_load_cube(q, c, di) && lex_lt(
            pos3(q),
            (c.x - di, c.y - di, c.z - di),
        ) implies bv[dist_sq(q, c)].contains(q) by {}
        assert(buckets_filled(bv, c, di, (c.x - di, c.y - di, c.z - di)));
    }
    let mut x: i32 = -d;
    while x <= d
        invariant
            0 <= d,
            di == d as int,
            load_cube_fits(c, di),
            max_r == 3 * di * di,
            d <= 30000,
            -d <= x <= d + 1,
            buckets_filled(bucket_views(buckets@), c, di, (c.x + x, c.y - di, c.z - di)),
        decreases d + 1 - x,
    {
        let mut y: i32 = -d;
        while y <= d
            invariant
                0 <= d,
                di == d as int,
                load_cube_fits(c, di),
                max_r == 3 * di * di,
                d <= 30000,
                -d <= x <= d,
                -d <= y <= d + 1,
                buckets_filled(bucket_views(buckets@), c, di, (c.x + x, c.y + y, c.z - di)),
            decreases d + 1 - y,
        {
            let mut z: i32 = -d;
            while z <= d
                invariant
                    0 <= d,
                    di == d as int,
                    load_cube_fits(c, di),
                    max_r == 3 * di * di,
                    d <= 30000,
                    -d <= x <= d,
                    -d <= y <= d,
                    -d <= z <= d + 1,
                    buckets_filled(bucket_views(buckets@), c, di, (c.x + x, c.y + y, c.z + z)),
                decreases d + 1 - z,
            {
                let p = ChunkPos { x: c.x + x, y: c.y + y, z: c.z + z };
                proof {
                    lemma_square_bound(x as int, di);
                    lemma_square_bound(y as int, di);
                    lemma_square_bound(z as int, di);
                    lemma_dist_bound(p, c, di);
                    assert(dist_sq(p, c) == x * x + y * y + z * z);
                }
                let r = (x * x + y * y + z * z) as usize;
                let ghost before = buckets@;
                buckets[r].push(p);
                proof {
                    lemma_fill_step(bucket_views(before), c, di, p);
                    assert(bucket_views(buckets@) =~= bucket_views(before).update(
                        r as int,
                        bucket_views(before)[r as int].push(p),
                    ));
                }
                z = z + 1;
            }
            proof {
                lemma_fill_same_prefix(
                    bucket_views(buckets@),
                    c,
                    di,
                    (c.x + x, c.y + y, c.z + di + 1),
                    (c.x + x, c.y + y + 1, c.z - di),
                );
            }
            y = y + 1;
        }
        proof {
            lemma_fill_same_prefix(
                bucket_views(buckets@),
                c,
                di,
                (c.x + x, c.y + di + 1, c.z - di),
                (c.x + x + 1, c.y - di, c.z - di),
            );
        }
        x = x + 1;
    }
    let ghost filled = bucket_views(buckets@);
    proof {
        lemma_flatten(filled, c, di, (max_r + 1) as nat);
    }
    let mut r: usize = 0;
    while r <= max_r
        invariant
            max_r == 3 * di * di,
            max_r <= i32::MAX,
            r <= max_r + 1,
            buckets@.len() == max_r + 1,
            filled.len() == max_r + 1,
            forall|s: int| r <= s <= max_r ==> (#[trigger] buckets@[s])@ == filled[s],
            order@ == flatten_buckets(filled, r as nat),
        decreases max_r + 1 - r,
    {
        order.append(&mut buckets[r]);
        r = r + 1;
    }
    proof {
        assert forall|p: ChunkPos| #[trigger] in_load_cube(p, c, d as int) implies order@.contains(p) by {
            lemma_dist_bound(p, c, di);
        }
    }
    order
}


/// The key of a chunk position.
pub open spec fn key_of(p: ChunkPos) -> u64 {
    chunk_key(p.x as int, p.y as int, p.z as int) as u64
}

/// The neighbour of `p` across face `i` (+z, -z, +x, -x, +y, -y).
pub open spec fn neighbor_pos(p: ChunkPos, i: int) -> ChunkPos {
    let n = face_normal(i);
    ChunkPos { x: (p.x + n[0]) as i32, y: (p.y + n[1]) as i32, z: (p.z + n[2]) as i32 }
}

/// `p` and its six neighbours have coordinates in `i32`.
pub open spec fn area_fits(p: ChunkPos) -> bool {
    &&& i32::MIN < p.x < i32::MAX
    &&& i32::MIN < p.y < i32::MAX
    &&& i32::MIN < p.z < i32::MAX
}

/// The keys of `p` and of its six neighbours.
pub open spec fn area_keys(p: ChunkPos) -> Set<u64> {
    set![
        key_of(p),
        key_of(neighbor_pos(p, 0)),
        key_of(neighbor_pos(p, 1)),
        key_of(neighbor_pos(p, 2)),
        key_of(neighbor_pos(p, 3)),
        key_of(neighbor_pos(p, 4)),
        key_of(neighbor_pos(p, 5)),
    ]
}

/// `nb` is the neighbourhood of `p` in `loaded`: the chunk at `p` and, for each
/// face, the loaded neighbour across it or `None`.
pub open spec fn is_neighborhood_of(nb: ChunkNeighborhood, loaded: Map<u64, Chunk>, p: ChunkPos) -> bool {
    &&& loaded.contains_key(key_of(p))
    &&& *nb.center == loaded[key_of(p)]
    &&& forall|i: int|
        0 <= i < 6 ==> (match #[trigger] nb.neighbors@[i] {
            Some(c) => loaded.contains_key(key_of(neighbor_pos(p, i))) && *c == loaded[key_of(
                neighbor_pos(p, i),
            )],
            None => !loaded.contains_key(key_of(neighbor_pos(p, i))),
        })
}

/// The chunk at key `k` and its six neighbours are all loaded.
pub open spec fn area_loaded(loaded: Map<u64, Chunk>, k: u64) -> bool {
    let p = key_pos(k as int);
    &&& loaded.contains_key(key_of(p))
    &&& forall|i: int| 0 <= i < 6 ==> loaded.contains_key(#[trigger] key_of(neighbor_pos(p, i)))
}

/// A chunk is ready to mesh exactly when it is loaded together with all six
/// chunks that share a face with it: the ones above and below (y), east and
/// west (x), and north and south (z).
pub proof fn lemma_area_loaded_is_all_six_neighbours(loaded: Map<u64, Chunk>, k: u64)
    ensures
        area_loaded(loaded, k) <==> ({
            let p = key_pos(k as int);
            &&& loaded.contains_key(key_of(p))
            &&& loaded.contains_key(key_of(ChunkPos { x: p.x, y: p.y, z: (p.z + 1) as i32 }))
            &&& loaded.contains_key(key_of(ChunkPos { x: p.x, y: p.y, z: (p.z - 1) as i32 }))
            &&& loaded.contains_key(key_of(ChunkPos { x: (p.x + 1) as i32, y: p.y, z: p.z }))
            &&& loaded.contains_key(key_of(ChunkPos { x: (p.x - 1) as i32, y: p.y, z: p.z }))
            &&& loaded.contains_key(key_of(ChunkPos { x: p.x, y: (p.y + 1) as i32, z: p.z }))
            &&& loaded.contains_key(key_of(ChunkPos { x: p.x, y: (p.y - 1) as i32, z: p.z }))
        }),
{
    let p = key_pos(k as int);
    assert(neighbor_pos(p, 0) == ChunkPos { x: p.x, y: p.y, z: (p.z + 1) as i32 });
    assert(neighbor_pos(p, 1) == ChunkPos { x: p.x, y: p.y, z: (p.z - 1) as i32 });
    assert(neighbor_pos(p, 2) == ChunkPos { x: (p.x + 1) as i32, y: p.y, z: p.z });
    assert(neighbor_pos(p, 3) == ChunkPos { x: (p.x - 1) as i32, y: p.y, z: p.z });
    assert(neighbor_pos(p, 4) == ChunkPos { x: p.x, y: (p.y + 1) as i32, z: p.z });
    assert(neighbor_pos(p, 5) == ChunkPos { x: p.x, y: (p.y - 1) as i32, z: p.z });
    if !area_loaded(loaded, k) && loaded.contains_key(key_of(p)) {
        let i = choose|i: int| 0 <= i < 6 && !loaded.contains_key(#[trigger] key_of(neighbor_pos(p, i)));
        assert(0 <= i < 6);
    }
}

/// Chunk `p` is more than `limit` chunks from `c` along some axis.
pub open spec fn beyond(p: ChunkPos, c: ChunkPos, limit: int) -> bool {
    (p.x - c.x > limit || c.x - p.x > limit) || (p.y - c.y > limit || c.y - p.y > limit) || (p.z
        - c.z > limit || c.z - p.z > limit)
}

/// How many chunks apart two coordinates are along one axis.
pub open spec fn axis_gap(a: int, b: int) -> int {
    if a < b {
        b - a
    } else {
        a - b
    }
}

/// A chunk counts as far from the player exactly when it is more than `limit`
/// chunks away along x, along y or along z.
pub proof fn lemma_far_means_some_axis_gap(p: ChunkPos, c: ChunkPos, limit: int)
    ensures
        beyond(p, c, limit) <==> (axis_gap(p.x as int, c.x as int) > limit || axis_gap(p.y as int, c.y as int)
            > limit || axis_gap(p.z as int, c.z as int) > limit),
{
}

/// The loaded chunks more than `limit` chunks from `c` along some axis.
pub open spec fn far_keys(loaded: Map<u64, Chunk>, c: ChunkPos, limit: int) -> Set<u64> {
    loaded.dom().filter(|k: u64| beyond(key_pos(k as int), c, limit))
}

/// The vertex and index regions of the meshes placed under `keys`, in the
/// order of `keys` (keys without a mesh contribute nothing).
pub open spec fn freed_regions(keys: Seq<u64>, placed: Map<u64, GPUMesh>) -> (Seq<Range<u64>>, Seq<Range<u64>>)
    decreases keys.len(),
{
    if keys.len() == 0 {
        (Seq::empty(), Seq::empty())
    } else {
        let (v, i) = freed_regions(keys.drop_last(), placed);
        let k = keys.last();
        if placed.contains_key(k) {
            (v.push(placed[k].allocation.v_range), i.push(placed[k].allocation.i_range))
        } else {
            (v, i)
        }
    }
}

/// A player chunk from which every packable chunk is within `i32` distance.
pub open spec fn player_fits(c: ChunkPos) -> bool {
    &&& -0x7FEFFFFF <= c.x <= 0x7FEFFFFF
    &&& -0x7FEFFFFF <= c.y <= 0x7FEFFFFF
    &&& -0x7FEFFFFF <= c.z <= 0x7FEFFFFF
}

/// Which of `cmds`, in order, are to be generated: those whose key is neither
/// loaded nor already pending (counting the ones requested before them), and
/// the pending set afterwards.
pub open spec fn schedule(cmds: Seq<ChunkPos>, loaded: Set<u64>, pending: Set<u64>) -> (Seq<ChunkPos>, Set<u64>)
    decreases cmds.len(),
{
    if cmds.len() == 0 {
        (Seq::empty(), pending)
    } else {
        let (req, pend) = schedule(cmds.drop_last(), loaded, pending);
        let k = key_of(cmds.last());
        if !loaded.contains(k) && !pend.contains(k) {
            (req.push(cmds.last()), pend.insert(k))
        } else {
            (req, pend)
        }
    }
}

/// After scheduling, every command's chunk is loaded or pending, and every
/// chunk that was pending still is: no command is left without generation.
pub proof fn lemma_schedule_covers_every_command(cmds: Seq<ChunkPos>, loaded: Set<u64>, pending: Set<u64>)
    ensures
        forall|i: int|
            0 <= i < cmds.len() ==> loaded.contains(key_of(#[trigger] cmds[i])) || schedule(
                cmds,
                loaded,
                pending,
            ).1.contains(key_of(cmds[i])),
        pending.subset_of(schedule(cmds, loaded, pending).1),
    decreases cmds.len(),
{
    if cmds.len() > 0 {
        let prev = cmds.drop_last();
        lemma_schedule_covers_every_command(prev, loaded, pending);
        let (req0, pend0) = schedule(prev, loaded, pending);
        let pend = schedule(cmds, loaded, pending).1;
        assert(pend0.subset_of(pend));
        assert forall|i: int| 0 <= i < cmds.len() implies loaded.contains(key_of(#[trigger] cmds[i]))
            || pend.contains(key_of(cmds[i])) by {
            if i < prev.len() {
                assert(cmds[i] == prev[i]);
            }
        }
    }
}

/// A sequence in load order names each chunk once.
pub proof fn lemma_load_order_distinct(order: Seq<ChunkPos>, c: ChunkPos)
    requires
        forall|i: int, j: int| 0 <= i < j < order.len() ==> loads_before(#[trigger] order[i], #[trigger] order[j], c),
    ensures
        order.no_duplicates(),
{
    assert forall|i: int, j: int| 0 <= i < order.len() && 0 <= j < order.len() && i != j implies order[i]
        != order[j] by {
        if i < j {
            assert(loads_before(order[i], order[j], c));
        } else {
            assert(loads_before(order[j], order[i], c));
        }
    }
}

/// Generation is requested only for chunks that are neither loaded nor
/// pending, at most once per key, and exactly those keys become pending.
pub proof fn lemma_schedule_requests_fresh_chunks(cmds: Seq<ChunkPos>, loaded: Set<u64>, pending: Set<u64>)
    ensures
        ({
            let (req, pend) = schedule(cmds, loaded, pending);
            &&& forall|i: int|
                0 <= i < req.len() ==> !loaded.contains(key_of(#[trigger] req[i])) && !pending.contains(
                    key_of(req[i]),
                )
            &&& forall|i: int, j: int| 0 <= i < j < req.len() ==> key_of(#[trigger] req[i]) != key_of(#[trigger] req[j])
            &&& pend == pending + Set::new(|k: u64| exists|i: int| 0 <= i < req.len() && key_of(req[i]) == k)
        }),
    decreases cmds.len(),
{
    if cmds.len() > 0 {
        lemma_schedule_requests_fresh_chunks(cmds.drop_last(), loaded, pending);
        let (req0, pend0) = schedule(cmds.drop_last(), loaded, pending);
        let (req, pend) = schedule(cmds, loaded, pending);
        let k = key_of(cmds.last());
        if !loaded.contains(k) && !pend0.contains(k) {
            assert(req == req0.push(cmds.last()));
            assert forall|i: int, j: int| 0 <= i < j < req.len() implies key_of(#[trigger] req[i]) != key_of(
                #[trigger] req[j],
            ) by {
                if j == req0.len() {
                    assert(req[i] == req0[i]);
                    assert(pend0.contains(key_of(req0[i])));
                } else {
                    assert(req[i] == req0[i] && req[j] == req0[j]);
                }
            }
            assert forall|i: int| 0 <= i < req.len() implies !loaded.contains(key_of(#[trigger] req[i]))
                && !pending.contains(key_of(req[i])) by {
                if i < req0.len() {
                    assert(req[i] == req0[i]);
                }
            }
            assert(pend =~= pending + Set::new(|kk: u64| exists|i: int| 0 <= i < req.len() && key_of(req[i]) == kk)) by {
                assert forall|kk: u64| pend.contains(kk) implies (pending + Set::new(
                    |kk: u64| exists|i: int| 0 <= i < req.len() && key_of(req[i]) == kk,
                )).contains(kk) by {
                    if kk == k {
                        assert(key_of(req[req0.len() as int]) == kk);
                    } else if !pending.contains(kk) {
                        let i = choose|i: int| 0 <= i < req0.len() && key_of(req0[i]) == kk;
                        assert(req[i] == req0[i]);
                    }
                }
                assert forall|kk: u64| (pending + Set::new(
                    |kk: u64| exists|i: int| 0 <= i < req.len() && key_of(req[i]) == kk,
                )).contains(kk) implies pend.contains(kk) by {
                    if !pending.contains(kk) {
                        let i = choose|i: int| 0 <= i < req.len() && key_of(req[i]) == kk;
                        if i < req0.len() {
                            assert(req[i] == req0[i]);
                        }
                    }
                }
            }
        } else {
            assert(req == req0 && pend == pend0);
        }
    } else {
        let (req, pend) = schedule(cmds, loaded, pending);
        assert(pend =~= pending + Set::new(|kk: u64| exists|i: int| 0 <= i < req.len() && key_of(req[i]) == kk));
    }
}

/// `std::sync::Arc::clone`: another pointer to the same chunk.
#[verifier::external_body]
fn share_chunk(c: &Arc<Chunk>) -> (r: Arc<Chunk>)
    ensures
        *r == **c,
{
    Arc::clone(c)
}

/// The neighbour of `p` across face `i`.
pub fn neighbor_position(p: ChunkPos, i: usize) -> (n: ChunkPos)
    requires
        area_fits(p),
        i < 6,
    ensures
        n == neighbor_pos(p, i as int),
{
    if i == 0 {
        ChunkPos { x: p.x, y: p.y, z: p.z + 1 }
    } else if i == 1 {
        ChunkPos { x: p.x, y: p.y, z: p.z - 1 }
    } else if i == 2 {
        ChunkPos { x: p.x + 1, y: p.y, z: p.z }
    } else if i == 3 {
        ChunkPos { x: p.x - 1, y: p.y, z: p.z }
    } else if i == 4 {
        ChunkPos { x: p.x, y: p.y + 1, z: p.z }
    } else {
        ChunkPos { x: p.x, y: p.y - 1, z: p.z }
    }
}

fn key_at(p: ChunkPos) -> (k: u64)
    ensures
        k == key_of(p),
{
    pack_chunk_coords(p.x, p.y, p.z)
}

/// Streams chunks around the player: which to generate, which to mesh, which to drop.
pub struct ChunkManager {
    pub gen_distance: i32,
    pub last_player_chunk: ChunkPos,
    pub pending_chunks: FxHashSet<u64>,
    pub dirty_chunks: FxHashSet<u64>,
    pub block_registry: BlockRegistry,
}

impl ChunkManager {
    /// Keys of the chunks being generated.
    pub open spec fn pending(&self) -> Set<u64> {
        key_set(self.pending_chunks)
    }

    /// Keys of the chunks whose mesh is out of date.
    pub open spec fn dirty(&self) -> Set<u64> {
        key_set(self.dirty_chunks)
    }

    /// Every key held is one that packing makes (below 2^63).
    pub open spec fn wf(&self) -> bool {
        &&& forall|k: u64| #[trigger] self.dirty().contains(k) ==> k < 0x8000000000000000u64
        &&& forall|k: u64| #[trigger] self.pending().contains(k) ==> k < 0x8000000000000000u64
    }

    /// A manager for generation radius `gen_distance`, nothing pending or
    /// dirty, with the player taken to be in chunk (0, 0, 0).
    pub fn new(gen_distance: i32, block_registry: BlockRegistry) -> (m: Self)
        ensures
            m.wf(),
            m.gen_distance == gen_distance,
            m.last_player_chunk == (ChunkPos { x: 0, y: 0, z: 0 }),
            m.pending().is_empty(),
            m.dirty().is_empty(),
            m.block_registry == block_registry,
    {
        ChunkManager {
            gen_distance,
            last_player_chunk: ChunkPos { x: 0, y: 0, z: 0 },
            pending_chunks: key_set_new(),
            dirty_chunks: key_set_new(),
            block_registry,
        }
    }

    /// When the player has entered another chunk, remembers it and returns every
    /// chunk within `gen_distance` of it along each axis, nearest first (at equal
    /// distance in x-y-z order); otherwise returns nothing.
    pub fn get_load_commands(&mut self, player_chunk: ChunkPos) -> (commands: Vec<ChunkPos>)
        requires
            player_chunk != old(self).last_player_chunk ==> load_cube_fits(
                player_chunk,
                old(self).gen_distance as int,
            ),
        ensures
            final(self).gen_distance == old(self).gen_distance,
            final(self).pending() == old(self).pending(),
            final(self).dirty() == old(self).dirty(),
            final(self).block_registry == old(self).block_registry,
            final(self).last_player_chunk == player_chunk,
            player_chunk == old(self).last_player_chunk ==> commands@.len() == 0,
            player_chunk != old(self).last_player_chunk ==> {
                &&& forall|i: int, j: int|
                    0 <= i < j < commands@.len() ==> loads_before(
                        #[trigger] commands@[i],
                        #[trigger] commands@[j],
                        player_chunk,
                    )
                &&& forall|i: int|
                    0 <= i < commands@.len() ==> in_load_cube(
                        #[trigger] commands@[i],
                        player_chunk,
                        old(self).gen_distance as int,
                    )
                &&& forall|p: ChunkPos|
                    #[trigger] in_load_cube(p, player_chunk, old(self).gen_distance as int)
                        ==> commands@.contains(p)
            },
    {
        if player_chunk == self.last_player_chunk {
            return Vec::new();
        }
        self.last_player_chunk = player_chunk;
        load_order(player_chunk, self.gen_distance)
    }

    /// Marks the chunk at `position` and its six neighbours as needing a new mesh.
    pub fn mark_area_dirty(&mut self, position: ChunkPos)
        requires
            old(self).wf(),
            area_fits(position),
        ensures
            final(self).wf(),
            final(self).dirty() == old(self).dirty() + area_keys(position),
            final(self).pending() == old(self).pending(),
            final(self).gen_distance == old(self).gen_distance,
            final(self).last_player_chunk == old(self).last_player_chunk,
            final(self).block_registry == old(self).block_registry,
    {
        let center_key = key_at(position);
        key_set_insert(&mut self.dirty_chunks, center_key);
        let ghost start = self.dirty();
        let mut i: usize = 0;
        while i < 6
            invariant
                i <= 6,
                area_fits(position),
                start == old(self).dirty().insert(key_of(position)),
                self.dirty() == start + Set::new(|k: u64| exists|j: int| 0 <= j < i && k == key_of(neighbor_pos(position, j))),
                self.pending() == old(self).pending(),
                self.gen_distance == old(self).gen_distance,
                self.last_player_chunk == old(self).last_player_chunk,
                self.block_registry == old(self).block_registry,
            decreases 6 - i,
        {
            let neighbor_position = neighbor_position(position, i);
            let neighbor_key = key_at(neighbor_position);
            let ghost before = self.dirty();
            key_set_insert(&mut self.dirty_chunks, neighbor_key);
            proof {
                assert(self.dirty() =~= start + Set::new(|k: u64| exists|j: int| 0 <= j < i + 1 && k == key_of(neighbor_pos(position, j))));
            }
            i = i + 1;
        }
        proof {
            assert(self.dirty() =~= old(self).dirty() + area_keys(position)) by {
                assert forall|k: u64| area_keys(position).contains(k) implies self.dirty().contains(k) by {
                    if k != key_of(position) {
                        if k == key_of(neighbor_pos(position, 0)) {} else if k == key_of(neighbor_pos(position, 1)) {
                        } else if k == key_of(neighbor_pos(position, 2)) {} else if k == key_of(neighbor_pos(position, 3)) {
                        } else if k == key_of(neighbor_pos(position, 4)) {} else {
                            assert(k == key_of(neighbor_pos(position, 5)));
                        }
                    }
                }
            }
            assert forall|k: u64| #[trigger] self.dirty().contains(k) implies k < 0x8000000000000000u64 by {
                if !old(self).dirty().contains(k) {
                    let p = if k == key_of(position) { position } else {
                        let j = choose|j: int| 0 <= j < 6 && k == key_of(neighbor_pos(position, j));
                        neighbor_pos(position, j)
                    };
                    assert(k == key_of(p));
                }
            }
        }
    }

    /// The neighbourhood of the chunk at `position`, when that chunk is loaded.
    pub fn try_get_neighborhood(&self, world: &World, position: ChunkPos) -> (r: Option<ChunkNeighborhood>)
        requires
            world.wf(),
            area_fits(position),
        ensures
            (match r {
                Some(nb) => nb.wf() && is_neighborhood_of(nb, world.loaded(), position),
                None => !world.loaded().contains_key(key_of(position)),
            }),
    {
        let center = match chunk_map_get(&world.chunks, key_at(position)) {
            Some(c) => share_chunk(c),
            None => return None,
        };
        let n0 = Self::loaded_neighbor(world, position, 0);
        let n1 = Self::loaded_neighbor(world, position, 1);
        let n2 = Self::loaded_neighbor(world, position, 2);
        let n3 = Self::loaded_neighbor(world, position, 3);
        let n4 = Self::loaded_neighbor(world, position, 4);
        let n5 = Self::loaded_neighbor(world, position, 5);
        let nb = ChunkNeighborhood { center, neighbors: [n0, n1, n2, n3, n4, n5] };
        proof {
            assert forall|i: int| 0 <= i < 6 implies (match #[trigger] nb.neighbors@[i] {
                Some(c) => world.loaded().contains_key(key_of(neighbor_pos(position, i))) && *c
                    == world.loaded()[key_of(neighbor_pos(position, i))],
                None => !world.loaded().contains_key(key_of(neighbor_pos(position, i))),
            }) by {
                if i == 0 {} else if i == 1 {} else if i == 2 {} else if i == 3 {} else if i == 4 {} else {}
            }
            assert forall|i: int| 0 <= i < 6 implies (#[trigger] nb.neighbors@[i] matches Some(c) ==> c.wf()) by {
                if let Some(c) = nb.neighbors@[i] {
                    assert(world.loaded().contains_key(key_of(neighbor_pos(position, i))));
                }
            }
        }
        Some(nb)
    }

    fn loaded_neighbor(world: &World, position: ChunkPos, i: usize) -> (r: Option<Arc<Chunk>>)
        requires
            area_fits(position),
            i < 6,
        ensures
            (match r {
                Some(c) => world.loaded().contains_key(key_of(neighbor_pos(position, i as int))) && *c
                    == world.loaded()[key_of(neighbor_pos(position, i as int))],
                None => !world.loaded().contains_key(key_of(neighbor_pos(position, i as int))),
            }),
    {
        match chunk_map_get(&world.chunks, key_at(neighbor_position(position, i))) {
            Some(c) => Some(share_chunk(c)),
            None => None,
        }
    }

    /// Marks for generation, in order, each command whose chunk is neither
    /// loaded nor pending, and returns those commands.
    pub fn schedule_generation(&mut self, world: &World, commands: &Vec<ChunkPos>) -> (requested: Vec<ChunkPos>)
        requires
            old(self).wf(),
        ensures
            final(self).wf(),
            (requested@, final(self).pending()) == schedule(commands@, world.loaded().dom(), old(self).pending()),
            forall|i: int|
                0 <= i < commands@.len() ==> world.loaded().contains_key(key_of(#[trigger] commands@[i]))
                    || final(self).pending().contains(key_of(commands@[i])),
            old(self).pending().subset_of(final(self).pending()),
            final(self).dirty() == old(self).dirty(),
            final(self).gen_distance == old(self).gen_distance,
            final(self).last_player_chunk == old(self).last_player_chunk,
            final(self).block_registry == old(self).block_registry,
    {
        let mut requested: Vec<ChunkPos> = Vec::new();
        let mut i: usize = 0;
        while i < commands.len()
            invariant
                i <= commands@.len(),
                self.wf(),
                (requested@, self.pending()) == schedule(commands@.take(i as int), world.loaded().dom(), old(self).pending()),
                self.dirty() == old(self).dirty(),
                self.gen_distance == old(self).gen_distance,
                self.last_player_chunk == old(self).last_player_chunk,
                self.block_registry == old(self).block_registry,
            decreases commands@.len() - i,
        {
            let cmd = commands[i];
            let key = key_at(cmd);
            proof {
                assert(commands@.take(i + 1).drop_last() =~= commands@.take(i as int));
                assert(commands@.take(i + 1).last() == cmd);
            }
            if !chunk_map_contains(&world.chunks, key) && !key_set_contains(&self.pending_chunks, key) {
                key_set_insert(&mut self.pending_chunks, key);
                requested.push(cmd);
            }
            i = i + 1;
        }
        proof {
            assert(commands@.take(commands@.len() as int) =~= commands@);
            lemma_schedule_covers_every_command(commands@, world.loaded().dom(), old(self).pending());
        }
        requested
    }

    /// Takes in a generated chunk: it is no longer pending, it is loaded under
    /// its key, and it and its neighbours need new meshes.
    pub fn receive_chunk(&mut self, world: &mut World, cmd: ChunkPos, new_chunk: Chunk)
        requires
            old(self).wf(),
            old(world).wf(),
            new_chunk.wf(),
            area_fits(cmd),
        ensures
            final(self).wf(),
            final(world).wf(),
            final(world).metadata == old(world).metadata,
            final(world).loaded() == old(world).loaded().insert(key_of(cmd), new_chunk),
            final(self).pending() == old(self).pending().remove(key_of(cmd)),
            final(self).dirty() == old(self).dirty() + area_keys(cmd),
            final(self).gen_distance == old(self).gen_distance,
            final(self).last_player_chunk == old(self).last_player_chunk,
            final(self).block_registry == old(self).block_registry,
    {
        let key = key_at(cmd);
        key_set_remove(&mut self.pending_chunks, key);
        chunk_map_insert(&mut world.chunks, key, Arc::new(new_chunk));
        proof {
            assert forall|k: u64| #[trigger] self.pending().contains(k) implies k < 0x8000000000000000u64 by {
                assert(old(self).pending().contains(k));
            }
            assert(self.dirty() == old(self).dirty());
            assert(self.wf());
        }
        self.mark_area_dirty(cmd);
        proof {
            assert forall|k: u64| #[trigger] world.loaded().contains_key(k) implies world.loaded()[k].wf() by {
                if k != key {
                    assert(old(world).loaded().contains_key(k));
                }
            }
        }
    }

    /// The meshing work for the dirty chunks whose neighbourhood is fully
    /// loaded: one job per such chunk (in the dirty set's own order), each
    /// with its neighbourhood; those chunks are no longer dirty.
    pub fn collect_mesh_jobs(&mut self, world: &World) -> (jobs: Vec<(u64, ChunkNeighborhood)>)
        requires
            old(self).wf(),
            world.wf(),
        ensures
            final(self).wf(),
            final(self).dirty() == old(self).dirty().filter(|k: u64| !area_loaded(world.loaded(), k)),
            forall|j: int|
                0 <= j < jobs@.len() ==> {
                    let job = #[trigger] jobs@[j];
                    &&& old(self).dirty().contains(job.0)
                    &&& area_loaded(world.loaded(), job.0)
                    &&& job.1.wf()
                    &&& is_neighborhood_of(job.1, world.loaded(), key_pos(job.0 as int))
                },
            forall|k: u64|
                old(self).dirty().contains(k) && #[trigger] area_loaded(world.loaded(), k) ==> exists|j: int|
                    0 <= j < jobs@.len() && (#[trigger] jobs@[j]).0 == k,
            forall|i: int, j: int| 0 <= i < j < jobs@.len() ==> (#[trigger] jobs@[i]).0 != (#[trigger] jobs@[j]).0,
            forall|j: int|
                0 <= j < jobs@.len() ==> {
                    let nbs = (#[trigger] jobs@[j]).1.neighbors@;
                    &&& nbs[0] is Some && nbs[1] is Some && nbs[2] is Some
                    &&& nbs[3] is Some && nbs[4] is Some && nbs[5] is Some
                },
            final(self).pending() == old(self).pending(),
            final(self).gen_distance == old(self).gen_distance,
            final(self).last_player_chunk == old(self).last_player_chunk,
            final(self).block_registry == old(self).block_registry,
    {
        let to_mesh = key_set_elements(&self.dirty_chunks);
        let mut jobs: Vec<(u64, ChunkNeighborhood)> = Vec::new();
        let ghost loaded = world.loaded();
        let mut i: usize = 0;
        while i < to_mesh.len()
            invariant
                i <= to_mesh@.len(),
                to_mesh@.to_set() == old(self).dirty(),
                to_mesh@.no_duplicates(),
                world.wf(),
                loaded == world.loaded(),
                old(self).wf(),
                self.dirty() == old(self).dirty().filter(
                    |k: u64| !(to_mesh@.take(i as int).contains(k) && area_loaded(loaded, k)),
                ),
                forall|j: int|
                    0 <= j < jobs@.len() ==> {
                        let job = #[trigger] jobs@[j];
                        &&& to_mesh@.take(i as int).contains(job.0)
                        &&& area_loaded(loaded, job.0)
                        &&& job.1.wf()
                        &&& is_neighborhood_of(job.1, loaded, key_pos(job.0 as int))
                    },
                forall|k: u64|
                    to_mesh@.take(i as int).contains(k) && #[trigger] area_loaded(loaded, k) ==> exists|j: int|
                        0 <= j < jobs@.len() && (#[trigger] jobs@[j]).0 == k,
                forall|a: int, b: int| 0 <= a < b < jobs@.len() ==> (#[trigger] jobs@[a]).0 != (#[trigger] jobs@[b]).0,
                self.pending() == old(self).pending(),
                self.gen_distance == old(self).gen_distance,
                self.last_player_chunk == old(self).last_player_chunk,
                self.block_registry == old(self).block_registry,
            decreases to_mesh@.len() - i,
        {
            let key = to_mesh[i];
            let ghost done = to_mesh@.take(i as int);
            let ghost done2 = to_mesh@.take(i + 1);
            proof {
                assert(old(self).dirty().contains(key)) by {
                    assert(to_mesh@.contains(key));
                }
                lemma_pack_unpack(key);
                assert(done2 =~= done.push(key));
                assert(!done.contains(key)) by {
                    if done.contains(key) {
                        let a = choose|a: int| 0 <= a < done.len() && done[a] == key;
                        assert(to_mesh@[a] == to_mesh@[i as int]);
                    }
                }
            }
            let position = unpack_chunk_coords(key);
            proof {
                assert(key_of(position) == key);
            }
            let ghost jobs_before = jobs@;
            let mut meshed = false;
            match self.try_get_neighborhood(world, position) {
                Some(neighborhood) => {
                    if neighborhood.neighbors[0].is_some() && neighborhood.neighbors[1].is_some()
                        && neighborhood.neighbors[2].is_some() && neighborhood.neighbors[3].is_some()
                        && neighborhood.neighbors[4].is_some() && neighborhood.neighbors[5].is_some() {
                        proof {
                            assert forall|f: int| 0 <= f < 6 implies loaded.contains_key(
                                #[trigger] key_of(neighbor_pos(position, f)),
                            ) by {
                                assert(neighborhood.neighbors@[f] is Some);
                            }
                            assert(area_loaded(loaded, key));
                        }
                        jobs.push((key, neighborhood));
                        key_set_remove(&mut self.dirty_chunks, key);
                        meshed = true;
                    } else {
                        proof {
                            assert(!area_loaded(loaded, key)) by {
                                if area_loaded(loaded, key) {
                                    assert forall|f: int| 0 <= f < 6 implies neighborhood.neighbors@[f] is Some by {
                                        assert(loaded.contains_key(key_of(neighbor_pos(position, f))));
                                    }
                                    assert(neighborhood.neighbors@[0] is Some);
                                    assert(neighborhood.neighbors@[1] is Some);
                                    assert(neighborhood.neighbors@[2] is Some);
                                    assert(neighborhood.neighbors@[3] is Some);
                                    assert(neighborhood.neighbors@[4] is Some);
                                    assert(neighborhood.neighbors@[5] is Some);
                                }
                            }
                        }
                    }
                },
                None => {
                    proof {
                        assert(!area_loaded(loaded, key));
                    }
                },
            }
            proof {
                assert(meshed == area_loaded(loaded, key));
                assert forall|k: u64| done2.contains(k) <==> (done.contains(k) || k == key) by {
                    if done2.contains(k) && k != key {
                        let a = choose|a: int| 0 <= a < done2.len() && done2[a] == k;
                        assert(a < done.len());
                        assert(done[a] == k);
                    }
                    if done.contains(k) {
                        let a = choose|a: int| 0 <= a < done.len() && done[a] == k;
                        assert(done2[a] == k);
                    }
                    if k == key {
                        assert(done2[i as int] == k);
                    }
                }
                assert(self.dirty() =~= old(self).dirty().filter(
                    |k: u64| !(done2.contains(k) && area_loaded(loaded, k)),
                ));
                assert forall|j: int| 0 <= j < jobs@.len() implies {
                    let job = #[trigger] jobs@[j];
                    &&& done2.contains(job.0)
                    &&& area_loaded(loaded, job.0)
                    &&& job.1.wf()
                    &&& is_neighborhood_of(job.1, loaded, key_pos(job.0 as int))
                } by {
                    if j < jobs_before.len() {
                        assert(jobs@[j] == jobs_before[j]);
                        assert(done.contains(jobs@[j].0));
                        let a = choose|a: int| 0 <= a < done.len() && done[a] == jobs@[j].0;
                        assert(done2[a] == jobs@[j].0);
                    } else {
                        assert(done2[i as int] == key);
                    }
                }
                assert forall|k: u64| done2.contains(k) && #[trigger] area_loaded(loaded, k) implies exists|j: int|
                    0 <= j < jobs@.len() && (#[trigger] jobs@[j]).0 == k by {
                    if k == key {
                        assert(jobs@[jobs@.len() - 1].0 == k);
                    } else {
                        let a = choose|a: int| 0 <= a < done2.len() && done2[a] == k;
                        assert(done[a] == k);
                        let j = choose|j: int| 0 <= j < jobs_before.len() && (#[trigger] jobs_before[j]).0 == k;
                        assert(jobs@[j] == jobs_before[j]);
                    }
                }
                assert forall|a: int, b: int| 0 <= a < b < jobs@.len() implies (#[trigger] jobs@[a]).0
                    != (#[trigger] jobs@[b]).0 by {
                    if b >= jobs_before.len() {
                        assert(jobs@[a] == jobs_before[a]);
                        assert(done.contains(jobs_before[a].0));
                    } else {
                        assert(jobs@[a] == jobs_before[a] && jobs@[b] == jobs_before[b]);
                    }
                }
            }
            i = i + 1;
        }
        proof {
            assert(to_mesh@.take(to_mesh@.len() as int) =~= to_mesh@);
            assert(self.dirty() =~= old(self).dirty().filter(|k: u64| !area_loaded(world.loaded(), k)));
            assert forall|k: u64|
                old(self).dirty().contains(k) && #[trigger] area_loaded(world.loaded(), k) implies exists|j: int|
                    0 <= j < jobs@.len() && (#[trigger] jobs@[j]).0 == k by {
                assert(to_mesh@.contains(k));
            }
            assert forall|j: int| 0 <= j < jobs@.len() implies old(self).dirty().contains((#[trigger] jobs@[j]).0) by {
                assert(to_mesh@.contains(jobs@[j].0));
            }
            assert forall|k: u64| #[trigger] self.dirty().contains(k) implies k < 0x8000000000000000u64 by {
                assert(old(self).dirty().contains(k));
            }
            assert forall|j: int| 0 <= j < jobs@.len() implies {
                let nbs = (#[trigger] jobs@[j]).1.neighbors@;
                &&& nbs[0] is Some && nbs[1] is Some && nbs[2] is Some
                &&& nbs[3] is Some && nbs[4] is Some && nbs[5] is Some
            } by {
                let job = jobs@[j];
                let p = key_pos(job.0 as int);
                assert(area_loaded(loaded, job.0));
                assert(is_neighborhood_of(job.1, loaded, p));
                assert forall|f: int| 0 <= f < 6 implies job.1.neighbors@[f] is Some by {
                    assert(loaded.contains_key(key_of(neighbor_pos(p, f))));
                    assert(job.1.neighbors@[f] matches Some(c) || !loaded.contains_key(key_of(neighbor_pos(p, f))));
                }
                assert(job.1.neighbors@[0] is Some);
                assert(job.1.neighbors@[1] is Some);
                assert(job.1.neighbors@[2] is Some);
                assert(job.1.neighbors@[3] is Some);
                assert(job.1.neighbors@[4] is Some);
                assert(job.1.neighbors@[5] is Some);
            }
        }
        jobs
    }

    /// Whether `p` is more than `limit` chunks from `c` along some axis.
    fn is_beyond(p: ChunkPos, c: ChunkPos, limit: i32) -> (far: bool)
        requires
            -0x100000 <= p.x < 0x100000,
            -0x100000 <= p.y < 0x100000,
            -0x100000 <= p.z < 0x100000,
            player_fits(c),
        ensures
            far == beyond(p, c, limit as int),
    {
        let dx = p.x - c.x;
        let dy = p.y - c.y;
        let dz = p.z - c.z;
        let dist_x = if dx < 0 { -dx } else { dx };
        let dist_y = if dy < 0 { -dy } else { dy };
        let dist_z = if dz < 0 { -dz } else { dz };
        dist_x > limit || dist_y > limit || dist_z > limit
    }

    /// Drops every loaded chunk more than `gen_distance + 4` chunks from the
    /// player's chunk along some axis: from the world, from the dirty and
    /// pending sets, and from the GPU meshes (whose space is freed).
    pub fn unload_distant_chunks(&mut self, world: &mut World, resource_manager: &mut ResourceManager)
        requires
            old(self).wf(),
            old(world).wf(),
            old(resource_manager).wf(),
            old(self).gen_distance <= i32::MAX - 4,
            player_fits(old(self).last_player_chunk),
        ensures
            ({
                let far = far_keys(
                    old(world).loaded(),
                    old(self).last_player_chunk,
                    old(self).gen_distance + 4,
                );
                &&& final(world).loaded() == old(world).loaded().remove_keys(far)
                &&& final(self).dirty() == old(self).dirty() - far
                &&& final(self).pending() == old(self).pending() - far
                &&& final(resource_manager).placed() == old(resource_manager).placed().remove_keys(far)
                &&& exists|order: Seq<u64>|
                    {
                        &&& order.to_set() == far
                        &&& order.no_duplicates()
                        &&& final(resource_manager).megabuffer.free_vertex_region@
                            == old(resource_manager).megabuffer.free_vertex_region@ + freed_regions(
                            order,
                            old(resource_manager).placed(),
                        ).0
                        &&& final(resource_manager).megabuffer.free_index_region@
                            == old(resource_manager).megabuffer.free_index_region@ + freed_regions(
                            order,
                            old(resource_manager).placed(),
                        ).1
                    }
            }),
            final(self).wf(),
            final(world).wf(),
            final(world).metadata == old(world).metadata,
            forall|k: u64|
                #[trigger] final(world).loaded().contains_key(k) <==> old(world).loaded().contains_key(k) && !({
                    let p = key_pos(k as int);
                    let c = old(self).last_player_chunk;
                    let limit = old(self).gen_distance + 4;
                    axis_gap(p.x as int, c.x as int) > limit || axis_gap(p.y as int, c.y as int) > limit
                        || axis_gap(p.z as int, c.z as int) > limit
                }),
            final(resource_manager).wf(),
            final(resource_manager).megabuffer.v_cursor == old(resource_manager).megabuffer.v_cursor,
            final(resource_manager).megabuffer.i_cursor == old(resource_manager).megabuffer.i_cursor,
            final(self).gen_distance == old(self).gen_distance,
            final(self).last_player_chunk == old(self).last_player_chunk,
            final(self).block_registry == old(self).block_registry,
    {
        let player_chunk = self.last_player_chunk;
        let limit = self.gen_distance + 4;
        let ghost far = far_keys(world.loaded(), player_chunk, limit as int);
        let keys = chunk_map_keys(&world.chunks);
        let mut to_remove: Vec<u64> = Vec::new();
        let mut i: usize = 0;
        while i < keys.len()
            invariant
                i <= keys@.len(),
                keys@.to_set() == old(world).loaded().dom(),
                keys@.no_duplicates(),
                player_fits(player_chunk),
                far == far_keys(old(world).loaded(), player_chunk, limit as int),
                forall|j: int| 0 <= j < to_remove@.len() ==> far.contains(#[trigger] to_remove@[j]),
                forall|j: int| 0 <= j < i && far.contains(#[trigger] keys@[j]) ==> to_remove@.contains(keys@[j]),
                forall|a: int, b: int| 0 <= a < b < to_remove@.len() ==> #[trigger] to_remove@[a] != #[trigger] to_remove@[b],
                forall|j: int| 0 <= j < to_remove@.len() ==> keys@.take(i as int).contains(#[trigger] to_remove@[j]),
            decreases keys@.len() - i,
        {
            let key = keys[i];
            let position = unpack_chunk_coords(key);
            proof {
                assert(old(world).loaded().dom().contains(key)) by {
                    assert(keys@.contains(key));
                }
            }
            let ghost before = to_remove@;
            if Self::is_beyond(position, player_chunk, limit) {
                to_remove.push(key);
            }
            proof {
                assert forall|j: int| 0 <= j < i + 1 && far.contains(#[trigger] keys@[j]) implies to_remove@.contains(
                    keys@[j],
                ) by {
                    if j < i {
                        let a = choose|a: int| 0 <= a < before.len() && before[a] == keys@[j];
                        assert(to_remove@[a] == keys@[j]);
                    } else {
                        assert(to_remove@[to_remove@.len() - 1] == key);
                    }
                }
                assert forall|j: int| 0 <= j < to_remove@.len() implies keys@.take(i + 1).contains(
                    #[trigger] to_remove@[j],
                ) by {
                    if j < before.len() {
                        let a = choose|a: int| 0 <= a < i && keys@[a] == to_remove@[j];
                        assert(keys@.take(i + 1)[a] == to_remove@[j]);
                    } else {
                        assert(keys@.take(i + 1)[i as int] == to_remove@[j]);
                    }
                }
                assert forall|a: int, b: int| 0 <= a < b < to_remove@.len() implies #[trigger] to_remove@[a]
                    != #[trigger] to_remove@[b] by {
                    if b == before.len() {
                        if to_remove@[a] == key {
                            let c = choose|c: int| 0 <= c < i && keys@[c] == before[a];
                            assert(keys@[c] == keys@[i as int]);
                        }
                    }
                }
            }
            i = i + 1;
        }
        proof {
            assert(to_remove@.to_set() =~= far) by {
                assert forall|k: u64| far.contains(k) implies to_remove@.contains(k) by {
                    assert(keys@.contains(k));
                    let j = choose|j: int| 0 <= j < keys@.len() && keys@[j] == k;
                }
            }
        }
        let mut j: usize = 0;
        while j < to_remove.len()
            invariant
                j <= to_remove@.len(),
                to_remove@.to_set() == far,
                forall|a: int, b: int| 0 <= a < b < to_remove@.len() ==> #[trigger] to_remove@[a] != #[trigger] to_remove@[b],
                world.loaded() == old(world).loaded().remove_keys(to_remove@.take(j as int).to_set()),
                self.dirty() == old(self).dirty() - to_remove@.take(j as int).to_set(),
                self.pending() == old(self).pending() - to_remove@.take(j as int).to_set(),
                resource_manager.placed() == old(resource_manager).placed().remove_keys(
                    to_remove@.take(j as int).to_set(),
                ),
                resource_manager.wf(),
                resource_manager.megabuffer.free_vertex_region@
                    == old(resource_manager).megabuffer.free_vertex_region@ + freed_regions(
                    to_remove@.take(j as int),
                    old(resource_manager).placed(),
                ).0,
                resource_manager.megabuffer.free_index_region@
                    == old(resource_manager).megabuffer.free_index_region@ + freed_regions(
                    to_remove@.take(j as int),
                    old(resource_manager).placed(),
                ).1,
                old(world).wf(),
                old(self).wf(),
                world.metadata == old(world).metadata,
                resource_manager.megabuffer.v_cursor == old(resource_manager).megabuffer.v_cursor,
                resource_manager.megabuffer.i_cursor == old(resource_manager).megabuffer.i_cursor,
                self.gen_distance == old(self).gen_distance,
                self.last_player_chunk == old(self).last_player_chunk,
                self.block_registry == old(self).block_registry,
            decreases to_remove@.len() - j,
        {
            let key = to_remove[j];
            key_set_remove(&mut self.dirty_chunks, key);
            chunk_map_remove(&mut world.chunks, key);
            key_set_remove(&mut self.pending_chunks, key);
            let ghost rm_before = *resource_manager;
            resource_manager.unload_chunk(key);
            proof {
                let t0 = to_remove@.take(j as int);
                let t1 = to_remove@.take(j + 1);
                assert(t1 =~= t0.push(key));
                assert forall|k: u64| t1.to_set().contains(k) <==> t0.to_set().insert(key).contains(k) by {
                    if t1.contains(k) && k != key {
                        let a = choose|a: int| 0 <= a < t1.len() && t1[a] == k;
                        assert(t0[a] == k);
                    }
                    if t0.contains(k) {
                        let a = choose|a: int| 0 <= a < t0.len() && t0[a] == k;
                        assert(t1[a] == k);
                    }
                    if k == key {
                        assert(t1[j as int] == k);
                    }
                }
                assert(t1.to_set() =~= t0.to_set().insert(key));
                assert(!t0.contains(key)) by {
                    if t0.contains(key) {
                        let a = choose|a: int| 0 <= a < t0.len() && t0[a] == key;
                        assert(to_remove@[a] == to_remove@[j as int]);
                    }
                }
                assert(t1.drop_last() == t0);
                let old_placed = old(resource_manager).placed();
                assert(old_placed.contains_key(key) == rm_before.placed().contains_key(key));
                if old_placed.contains_key(key) {
                    assert(rm_before.placed()[key] == old_placed[key]);
                }
                assert(resource_manager.megabuffer.free_vertex_region@
                    =~= old(resource_manager).megabuffer.free_vertex_region@ + freed_regions(t1, old_placed).0);
                assert(resource_manager.megabuffer.free_index_region@
                    =~= old(resource_manager).megabuffer.free_index_region@ + freed_regions(t1, old_placed).1);
                assert(world.loaded() =~= old(world).loaded().remove_keys(to_remove@.take(j + 1).to_set()));
                assert(self.dirty() =~= old(self).dirty() - to_remove@.take(j + 1).to_set());
                assert(self.pending() =~= old(self).pending() - to_remove@.take(j + 1).to_set());
                assert(resource_manager.placed() =~= old(resource_manager).placed().remove_keys(
                    to_remove@.take(j + 1).to_set(),
                ));
            }
            j = j + 1;
        }
        proof {
            assert(to_remove@.take(to_remove@.len() as int) =~= to_remove@);
            assert(to_remove@.no_duplicates());
            assert(to_remove@.to_set() == far);
            assert forall|k: u64| #[trigger] world.loaded().contains_key(k) implies world.loaded()[k].wf() by {
                assert(old(world).loaded().contains_key(k));
            }
            assert forall|k: u64| #[trigger] self.dirty().contains(k) implies k < 0x8000000000000000u64 by {
                assert(old(self).dirty().contains(k));
            }
            assert forall|k: u64| #[trigger] self.pending().contains(k) implies k < 0x8000000000000000u64 by {
                assert(old(self).pending().contains(k));
            }
            assert forall|k: u64| #[trigger] world.loaded().contains_key(k) <==> old(world).loaded().contains_key(k)
                && !({
                let p = key_pos(k as int);
                axis_gap(p.x as int, player_chunk.x as int) > limit || axis_gap(p.y as int, player_chunk.y as int)
                    > limit || axis_gap(p.z as int, player_chunk.z as int) > limit
            }) by {
                lemma_far_means_some_axis_gap(key_pos(k as int), player_chunk, limit as int);
            }
        }
    }
}

} // verus!
