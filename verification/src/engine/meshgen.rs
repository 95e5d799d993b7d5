use vstd::prelude::*;
use crate::engine::data::{BlockTypes, Vertex, CHUNK_SIZE};
use crate::engine::mesh::{
    cell_x, cell_y, cell_z, cross3, draws_faces, quad_index, emit_face, face_normal, lemma_cell_coords,
    lemma_draws_push, outward_unit_quad, sub3, Face, FaceRef,
};
use crate::game::chunk::{chunk_volume, in_chunk};
use crate::game::chunk::manager::ChunkNeighborhood;

verus! {

/// Corner `v` of face `f` in chunk meshes, as an offset from the block's low corner.
pub open spec fn face_corner(f: int, v: int) -> Seq<int> {
    if f == 0 {
        if v == 0 { seq![0int, 0, 1] } else if v == 1 { seq![1int, 0, 1] } else if v == 2 { seq![1int, 1, 1] } else { seq![0int, 1, 1] }
    } else if f == 1 {
        if v == 0 { seq![1int, 0, 0] } else if v == 1 { seq![0int, 0, 0] } else if v == 2 { seq![0int, 1, 0] } else { seq![1int, 1, 0] }
    } else if f == 2 {
        if v == 0 { seq![1int, 0, 1] } else if v == 1 { seq![1int, 0, 0] } else if v == 2 { seq![1int, 1, 0] } else { seq![1int, 1, 1] }
    } else if f == 3 {
        if v == 0 { seq![0int, 0, 0] } else if v == 1 { seq![0int, 0, 1] } else if v == 2 { seq![0int, 1, 1] } else { seq![0int, 1, 0] }
    } else if f == 4 {
        if v == 0 { seq![0int, 1, 1] } else if v == 1 { seq![1int, 1, 1] } else if v == 2 { seq![1int, 1, 0] } else { seq![0int, 1, 0] }
    } else {
        if v == 0 { seq![0int, 0, 0] } else if v == 1 { seq![1int, 0, 0] } else if v == 2 { seq![1int, 0, 1] } else { seq![0int, 0, 1] }
    }
}

/// Face `f` of a block (0 +z, 1 -z, 2 +x, 3 -x, 4 +y, 5 -y).
pub fn face(f: usize) -> (face: Face)
    requires
        f < 6,
    ensures
        forall|k: int| 0 <= k < 3 ==> #[trigger] face.normal@[k] as int == face_normal(f as int)[k],
        forall|v: int, k: int|
            0 <= v < 4 && 0 <= k < 3 ==> #[trigger] face.verts@[v]@[k] as int == face_corner(f as int, v)[k],
{
    let face = if f == 0 {
        Face { normal: [0, 0, 1], verts: [[0, 0, 1], [1, 0, 1], [1, 1, 1], [0, 1, 1]] }
    } else if f == 1 {
        Face { normal: [0, 0, -1], verts: [[1, 0, 0], [0, 0, 0], [0, 1, 0], [1, 1, 0]] }
    } else if f == 2 {
        Face { normal: [1, 0, 0], verts: [[1, 0, 1], [1, 0, 0], [1, 1, 0], [1, 1, 1]] }
    } else if f == 3 {
        Face { normal: [-1, 0, 0], verts: [[0, 0, 0], [0, 0, 1], [0, 1, 1], [0, 1, 0]] }
    } else if f == 4 {
        Face { normal: [0, 1, 0], verts: [[0, 1, 1], [1, 1, 1], [1, 1, 0], [0, 1, 0]] }
    } else {
        Face { normal: [0, -1, 0], verts: [[0, 0, 0], [1, 0, 0], [1, 0, 1], [0, 0, 1]] }
    };
    face
}

/// Every face of a chunk mesh is wound counter-clockwise seen from outside
/// its block, so back-face culling keeps exactly the faces that look away
/// from the block; its outward normal is the face's normal.
#[verifier::spinoff_prover]
#[verifier::rlimit(50)]
pub proof fn lemma_chunk_faces_wound_outward(f: int)
    requires
        0 <= f < 6,
    ensures
        outward_unit_quad(face_corner(f, 0), face_corner(f, 1), face_corner(f, 2), face_corner(f, 3)),
        ({
            let n = cross3(sub3(face_corner(f, 1), face_corner(f, 0)), sub3(face_corner(f, 2), face_corner(f, 0)));
            n[0] == face_normal(f)[0] && n[1] == face_normal(f)[1] && n[2] == face_normal(f)[2]
        }),
{
    let c0 = face_corner(f, 0);
    let c1 = face_corner(f, 1);
    let c2 = face_corner(f, 2);
    let c3 = face_corner(f, 3);
    let d1 = sub3(c1, c0);
    let d2 = sub3(c2, c0);
    let d3 = sub3(c3, c0);
    let n = cross3(d1, d2);
    let m = cross3(d2, d3);
    assert(n[0] == d1[1] * d2[2] - d1[2] * d2[1] && n[1] == d1[2] * d2[0] - d1[0] * d2[2] && n[2] == d1[0]
        * d2[1] - d1[1] * d2[0]);
    assert(m[0] == d2[1] * d3[2] - d2[2] * d3[1] && m[1] == d2[2] * d3[0] - d2[0] * d3[2] && m[2] == d2[0]
        * d3[1] - d2[1] * d3[0]);
    assert(d1[0] == c1[0] - c0[0] && d1[1] == c1[1] - c0[1] && d1[2] == c1[2] - c0[2]);
    assert(d2[0] == c2[0] - c0[0] && d2[1] == c2[1] - c0[1] && d2[2] == c2[2] - c0[2]);
    assert(d3[0] == c3[0] - c0[0] && d3[1] == c3[1] - c0[1] && d3[2] == c3[2] - c0[2]);
    let (x1, y1, z1, x2, y2, z2, x3, y3, z3) = (d1[0], d1[1], d1[2], d2[0], d2[1], d2[2], d3[0], d3[1], d3[2]);
    if f == 0 {
        assert(x1 == 1 && y1 == 0 && z1 == 0 && x2 == 1 && y2 == 1 && z2 == 0 && x3 == 0 && y3 == 1 && z3 == 0);
        assert(n[0] == 0 && n[1] == 0 && n[2] == 1 && m[0] == 0 && m[1] == 0 && m[2] == 1 && n[0] * n[0] + n[1] * n[1] + n[2] * n[2] == 1) by (nonlinear_arith)
            requires
                n[0] == y1 * z2 - z1 * y2, n[1] == z1 * x2 - x1 * z2, n[2] == x1 * y2 - y1 * x2, m[0] == y2 * z3 - z2 * y3, m[1] == z2 * x3 - x2 * z3, m[2] == x2 * y3 - y2 * x3, x1 == 1, y1 == 0, z1 == 0, x2 == 1, y2 == 1, z2 == 0, x3 == 0, y3 == 1, z3 == 0,
        ;
    } else if f == 1 {
        assert(x1 == -1 && y1 == 0 && z1 == 0 && x2 == -1 && y2 == 1 && z2 == 0 && x3 == 0 && y3 == 1 && z3 == 0);
        assert(n[0] == 0 && n[1] == 0 && n[2] == -1 && m[0] == 0 && m[1] == 0 && m[2] == -1 && n[0] * n[0] + n[1] * n[1] + n[2] * n[2] == 1) by (nonlinear_arith)
            requires
                n[0] == y1 * z2 - z1 * y2, n[1] == z1 * x2 - x1 * z2, n[2] == x1 * y2 - y1 * x2, m[0] == y2 * z3 - z2 * y3, m[1] == z2 * x3 - x2 * z3, m[2] == x2 * y3 - y2 * x3, x1 == -1, y1 == 0, z1 == 0, x2 == -1, y2 == 1, z2 == 0, x3 == 0, y3 == 1, z3 == 0,
        ;
    } else if f == 2 {
        assert(x1 == 0 && y1 == 0 && z1 == -1 && x2 == 0 && y2 == 1 && z2 == -1 && x3 == 0 && y3 == 1 && z3 == 0);
        assert(n[0] == 1 && n[1] == 0 && n[2] == 0 && m[0] == 1 && m[1] == 0 && m[2] == 0 && n[0] * n[0] + n[1] * n[1] + n[2] * n[2] == 1) by (nonlinear_arith)
            requires
                n[0] == y1 * z2 - z1 * y2, n[1] == z1 * x2 - x1 * z2, n[2] == x1 * y2 - y1 * x2, m[0] == y2 * z3 - z2 * y3, m[1] == z2 * x3 - x2 * z3, m[2] == x2 * y3 - y2 * x3, x1 == 0, y1 == 0, z1 == -1, x2 == 0, y2 == 1, z2 == -1, x3 == 0, y3 == 1, z3 == 0,
        ;
    } else if f == 3 {
        assert(x1 == 0 && y1 == 0 && z1 == 1 && x2 == 0 && y2 == 1 && z2 == 1 && x3 == 0 && y3 == 1 && z3 == 0);
        assert(n[0] == -1 && n[1] == 0 && n[2] == 0 && m[0] == -1 && m[1] == 0 && m[2] == 0 && n[0] * n[0] + n[1] * n[1] + n[2] * n[2] == 1) by (nonlinear_arith)
            requires
                n[0] == y1 * z2 - z1 * y2, n[1] == z1 * x2 - x1 * z2, n[2] == x1 * y2 - y1 * x2, m[0] == y2 * z3 - z2 * y3, m[1] == z2 * x3 - x2 * z3, m[2] == x2 * y3 - y2 * x3, x1 == 0, y1 == 0, z1 == 1, x2 == 0, y2 == 1, z2 == 1, x3 == 0, y3 == 1, z3 == 0,
        ;
    } else if f == 4 {
        assert(x1 == 1 && y1 == 0 && z1 == 0 && x2 == 1 && y2 == 0 && z2 == -1 && x3 == 0 && y3 == 0 && z3 == -1);
        assert(n[0] == 0 && n[1] == 1 && n[2] == 0 && m[0] == 0 && m[1] == 1 && m[2] == 0 && n[0] * n[0] + n[1] * n[1] + n[2] * n[2] == 1) by (nonlinear_arith)
            requires
                n[0] == y1 * z2 - z1 * y2, n[1] == z1 * x2 - x1 * z2, n[2] == x1 * y2 - y1 * x2, m[0] == y2 * z3 - z2 * y3, m[1] == z2 * x3 - x2 * z3, m[2] == x2 * y3 - y2 * x3, x1 == 1, y1 == 0, z1 == 0, x2 == 1, y2 == 0, z2 == -1, x3 == 0, y3 == 0, z3 == -1,
        ;
    } else {
        assert(x1 == 1 && y1 == 0 && z1 == 0 && x2 == 1 && y2 == 0 && z2 == 1 && x3 == 0 && y3 == 0 && z3 == 1);
        assert(n[0] == 0 && n[1] == -1 && n[2] == 0 && m[0] == 0 && m[1] == -1 && m[2] == 0 && n[0] * n[0] + n[1] * n[1] + n[2] * n[2] == 1) by (nonlinear_arith)
            requires
                n[0] == y1 * z2 - z1 * y2, n[1] == z1 * x2 - x1 * z2, n[2] == x1 * y2 - y1 * x2, m[0] == y2 * z3 - z2 * y3, m[1] == z2 * x3 - x2 * z3, m[2] == x2 * y3 - y2 * x3, x1 == 1, y1 == 0, z1 == 0, x2 == 1, y2 == 0, z2 == 1, x3 == 0, y3 == 0, z3 == 1,
        ;
    }
}

/// Wraps a coordinate that left the chunk by one step onto the opposite side.
pub open spec fn wrap(v: int) -> int {
    if v < 0 {
        CHUNK_SIZE as int - 1
    } else if v >= CHUNK_SIZE as int {
        0
    } else {
        v
    }
}

/// Whether the block beside `(x, y, z)` across face `f` is air. Across the
/// chunk's border it is read from the neighbour chunk on that side; a
/// neighbour that is not loaded counts as air.
pub open spec fn neighbor_is_air(nb: ChunkNeighborhood, x: int, y: int, z: int, f: int) -> bool {
    let n = face_normal(f);
    let nx = x + n[0];
    let ny = y + n[1];
    let nz = z + n[2];
    if in_chunk(nx, ny, nz) {
        nb.center.block(nx, ny, nz) == BlockTypes::AIR
    } else {
        match nb.neighbors@[f] {
            Some(c) => c.block(wrap(nx), wrap(ny), wrap(nz)) == BlockTypes::AIR,
            None => true,
        }
    }
}

fn neighbor_air(nb: &ChunkNeighborhood, x: usize, y: usize, z: usize, f: usize, face: &Face) -> (air: bool)
    requires
        nb.wf(),
        x < CHUNK_SIZE,
        y < CHUNK_SIZE,
        z < CHUNK_SIZE,
        f < 6,
        forall|k: int| 0 <= k < 3 ==> #[trigger] face.normal@[k] as int == face_normal(f as int)[k],
    ensures
        air == neighbor_is_air(*nb, x as int, y as int, z as int, f as int),
{
    let s = CHUNK_SIZE as i32;
    proof {
        assert(face.normal@[0] as int == face_normal(f as int)[0]);
        assert(face.normal@[1] as int == face_normal(f as int)[1]);
        assert(face.normal@[2] as int == face_normal(f as int)[2]);
    }
    let nx = x as i32 + face.normal[0] as i32;
    let ny = y as i32 + face.normal[1] as i32;
    let nz = z as i32 + face.normal[2] as i32;
    if nx < 0 || ny < 0 || nz < 0 || nx >= s || ny >= s || nz >= s {
        match &nb.neighbors[f] {
            Some(neighbor) => {
                proof {
                    assert(nb.neighbors@[f as int] matches Some(c) ==> c.wf());
                }
                let nnx = (if nx < 0 { s - 1 } else if nx >= s { 0 } else { nx }) as usize;
                let nny = (if ny < 0 { s - 1 } else if ny >= s { 0 } else { ny }) as usize;
                let nnz = (if nz < 0 { s - 1 } else if nz >= s { 0 } else { nz }) as usize;
                neighbor.get(nnx, nny, nnz) == BlockTypes::AIR
            },
            None => true,
        }
    } else {
        nb.center.get(nx as usize, ny as usize, nz as usize) == BlockTypes::AIR
    }
}


/// Whether face `f` of block `(x, y, z)` is drawn: the block is solid and the
/// block beside it across `f` is air.
pub open spec fn face_shown(nb: ChunkNeighborhood, x: int, y: int, z: int, f: int) -> bool {
    nb.center.block(x, y, z) != BlockTypes::AIR && neighbor_is_air(nb, x, y, z, f)
}

/// The drawn faces among the first `k` faces of block `(x, y, z)`, in face order.
pub open spec fn cell_faces(nb: ChunkNeighborhood, x: int, y: int, z: int, k: nat) -> Seq<FaceRef>
    decreases k,
{
    if k == 0 {
        Seq::empty()
    } else {
        let prev = cell_faces(nb, x, y, z, (k - 1) as nat);
        if face_shown(nb, x, y, z, k - 1) {
            prev.push((x, y, z, k - 1))
        } else {
            prev
        }
    }
}

/// The drawn faces of the first `n` blocks in meshing order.
pub open spec fn shown_faces(nb: ChunkNeighborhood, n: nat) -> Seq<FaceRef>
    decreases n,
{
    if n == 0 {
        Seq::empty()
    } else {
        shown_faces(nb, (n - 1) as nat) + cell_faces(
            nb,
            cell_x(n - 1),
            cell_y(n - 1),
            cell_z(n - 1),
            6,
        )
    }
}

/// The type of the block that owns a face, read from the centre chunk.
pub open spec fn center_block(nb: ChunkNeighborhood) -> spec_fn(FaceRef) -> BlockTypes {
    |fr: FaceRef| nb.center.block(fr.0, fr.1, fr.2)
}

/// The mesh of a chunk: quads for the visible block faces, positions local to
/// the chunk, and the chunk's position in blocks.
pub struct Mesh {
    pub vertices: Vec<Vertex>,
    pub indices: Vec<u32>,
    pub world_pos: [i32; 3],
}

/// Meshes a chunk: for every solid block, in z, y, x order, and for each of
/// its faces in face order (+z, -z, +x, -x, +y, -y) whose neighbouring block is
/// air, a quad of four vertices and six indices. Blocks across the border are
/// read from the loaded neighbour on that side; a missing neighbour counts as air.
pub fn mesh_chunk(neighborhood: &ChunkNeighborhood) -> (mesh: Mesh)
    requires
        neighborhood.wf(),
        i32::MIN <= neighborhood.center.position.x * CHUNK_SIZE <= i32::MAX,
        i32::MIN <= neighborhood.center.position.y * CHUNK_SIZE <= i32::MAX,
        i32::MIN <= neighborhood.center.position.z * CHUNK_SIZE <= i32::MAX,
    ensures
        draws_faces(
            |f: int, v: int| face_corner(f, v),
            shown_faces(*neighborhood, chunk_volume() as nat),
            center_block(*neighborhood),
            mesh.vertices@,
            mesh.indices@,
        ),
        mesh.world_pos@[0] == neighborhood.center.position.x * CHUNK_SIZE,
        mesh.world_pos@[1] == neighborhood.center.position.y * CHUNK_SIZE,
        mesh.world_pos@[2] == neighborhood.center.position.z * CHUNK_SIZE,
{
    let mut vertices: Vec<Vertex> = Vec::new();
    let mut indices: Vec<u32> = Vec::new();
    let ghost nb = *neighborhood;
    let ghost blk = center_block(nb);
    let ghost corner = |f: int, v: int| face_corner(f, v);
    let ghost mut faces: Seq<FaceRef> = Seq::empty();
    for z in 0..CHUNK_SIZE
        invariant
            neighborhood.wf(),
            nb == *neighborhood,
            blk == center_block(nb),
            corner == (|f: int, v: int| face_corner(f, v)),
            faces == shown_faces(nb, (z * 1024) as nat),
            faces.len() <= 6 * (z * 1024),
            draws_faces(corner, faces, blk, vertices@, indices@),
    {
        for y in 0..CHUNK_SIZE
            invariant
                z < CHUNK_SIZE,
                neighborhood.wf(),
                nb == *neighborhood,
                blk == center_block(nb),
            corner == (|f: int, v: int| face_corner(f, v)),
                faces == shown_faces(nb, (z * 1024 + y * 32) as nat),
                faces.len() <= 6 * (z * 1024 + y * 32),
                draws_faces(corner, faces, blk, vertices@, indices@),
        {
            for x in 0..CHUNK_SIZE
                invariant
                    y < CHUNK_SIZE,
                    z < CHUNK_SIZE,
                    neighborhood.wf(),
                    nb == *neighborhood,
                    blk == center_block(nb),
            corner == (|f: int, v: int| face_corner(f, v)),
                    faces == shown_faces(nb, (z * 1024 + y * 32 + x) as nat),
                    faces.len() <= 6 * (z * 1024 + y * 32 + x),
                    draws_faces(corner, faces, blk, vertices@, indices@),
            {
                let ghost c: int = z * 1024 + y * 32 + x;
                proof {
                    lemma_cell_coords(x as u32, y as u32, z as u32);
                }
                let block = neighborhood.center.get(x, y, z);
                if block == BlockTypes::AIR {
                    proof {
                        assert(cell_faces(nb, x as int, y as int, z as int, 6) =~= Seq::empty()) by {
                            reveal_with_fuel(cell_faces, 7);
                        }
                    }
                } else {
                    for f in 0..6
                        invariant
                            x < CHUNK_SIZE,
                            y < CHUNK_SIZE,
                            z < CHUNK_SIZE,
                            c == z * 1024 + y * 32 + x,
                            cell_x(c) == x,
                            cell_y(c) == y,
                            cell_z(c) == z,
                            block == nb.center.block(x as int, y as int, z as int),
                            block != BlockTypes::AIR,
                            neighborhood.wf(),
                            nb == *neighborhood,
                            blk == center_block(nb),
            corner == (|f: int, v: int| face_corner(f, v)),
                            faces == shown_faces(nb, c as nat) + cell_faces(
                                nb,
                                x as int,
                                y as int,
                                z as int,
                                f as nat,
                            ),
                            faces.len() <= 6 * c + f,
                            draws_faces(corner, faces, blk, vertices@, indices@),
                    {
                        let face = face(f);
                        let air = neighbor_air(neighborhood, x, y, z, f, &face);
                        if air {
                            let ghost old_v = vertices@;
                            let ghost old_i = indices@;
                            emit_face(Ghost(corner), &mut vertices, &mut indices, x, y, z, f, &face, block);
                            proof {
                                let fr: FaceRef = (x as int, y as int, z as int, f as int);
                                lemma_draws_push(corner, faces, blk, old_v, old_i, vertices@, indices@, fr);
                                faces = faces.push(fr);
                            }
                        }
                        proof {
                            assert(air == face_shown(nb, x as int, y as int, z as int, f as int));
                            assert(faces =~= shown_faces(nb, c as nat) + cell_faces(
                                nb,
                                x as int,
                                y as int,
                                z as int,
                                (f + 1) as nat,
                            ));
                        }
                    }
                }
                proof {
                    assert(shown_faces(nb, (c + 1) as nat) == faces);
                }
            }
        }
    }
    let s = CHUNK_SIZE as i32;
    let p = neighborhood.center.position;
    Mesh { vertices, indices, world_pos: [p.x * s, p.y * s, p.z * s] }
}


proof fn lemma_cell_faces_exact(nb: ChunkNeighborhood, x: int, y: int, z: int, k: nat)
    requires
        k <= 6,
    ensures
        forall|i: int|
            0 <= i < cell_faces(nb, x, y, z, k).len() ==> {
                let q = #[trigger] cell_faces(nb, x, y, z, k)[i];
                &&& q.0 == x && q.1 == y && q.2 == z
                &&& 0 <= q.3 < k
                &&& face_shown(nb, x, y, z, q.3)
            },
        forall|f: int| 0 <= f < k && face_shown(nb, x, y, z, f) ==> #[trigger] cell_faces(nb, x, y, z, k).contains((x, y, z, f)),
    decreases k,
{
    if k > 0 {
        let k1 = (k - 1) as nat;
        lemma_cell_faces_exact(nb, x, y, z, k1);
        let prev = cell_faces(nb, x, y, z, k1);
        let cur = cell_faces(nb, x, y, z, k);
        assert(cur == if face_shown(nb, x, y, z, k1 as int) { prev.push((x, y, z, k1 as int)) } else { prev });
        assert forall|f: int| 0 <= f < k && face_shown(nb, x, y, z, f) implies #[trigger] cur.contains((x, y, z, f)) by {
            if f < k1 {
                assert(prev.contains((x, y, z, f)));
                let j = choose|j: int| 0 <= j < prev.len() && prev[j] == (x, y, z, f);
                assert(cur[j] == prev[j]);
            } else {
                assert(cur[cur.len() - 1] == (x, y, z, f));
            }
        }
    }
}

/// Every face in a chunk mesh is a drawn face (its block is solid and the block
/// beside it is air), and every drawn face of the first `n` blocks is in it.
pub proof fn lemma_shown_faces_exact(nb: ChunkNeighborhood, n: nat)
    ensures
        forall|i: int|
            0 <= i < shown_faces(nb, n).len() ==> {
                let q = #[trigger] shown_faces(nb, n)[i];
                &&& 0 <= q.3 < 6
                &&& face_shown(nb, q.0, q.1, q.2, q.3)
            },
        forall|c: int, f: int|
            0 <= c < n && 0 <= f < 6 && face_shown(nb, cell_x(c), cell_y(c), cell_z(c), f) ==> #[trigger] shown_faces(
                nb,
                n,
            ).contains((cell_x(c), cell_y(c), cell_z(c), f)),
    decreases n,
{
    if n > 0 {
        let n1 = (n - 1) as nat;
        lemma_shown_faces_exact(nb, n1);
        let c = n - 1;
        lemma_cell_faces_exact(nb, cell_x(c), cell_y(c), cell_z(c), 6);
        let prev = shown_faces(nb, n1);
        let cell = cell_faces(nb, cell_x(c), cell_y(c), cell_z(c), 6);
        let cur = shown_faces(nb, n);
        assert(cur == prev + cell);
        assert forall|i: int| 0 <= i < cur.len() implies {
            let q = #[trigger] cur[i];
            &&& 0 <= q.3 < 6
            &&& face_shown(nb, q.0, q.1, q.2, q.3)
        } by {
            if i < prev.len() {
                assert(cur[i] == prev[i]);
            } else {
                assert(cur[i] == cell[i - prev.len()]);
            }
        }
        assert forall|d: int, f: int|
            0 <= d < n && 0 <= f < 6 && face_shown(nb, cell_x(d), cell_y(d), cell_z(d), f) implies #[trigger] cur.contains(
            (cell_x(d), cell_y(d), cell_z(d), f),
        ) by {
            let q = (cell_x(d), cell_y(d), cell_z(d), f);
            if d < n1 {
                assert(prev.contains(q));
                let j = choose|j: int| 0 <= j < prev.len() && prev[j] == q;
                assert(cur[j] == q);
            } else {
                assert(cell.contains(q));
                let j = choose|j: int| 0 <= j < cell.len() && cell[j] == q;
                assert(cur[prev.len() + j] == q);
            }
        }
    }
}

/// A chunk with no solid block meshes to nothing.
pub proof fn lemma_air_chunk_mesh_is_empty(nb: ChunkNeighborhood)
    requires
        forall|x: int, y: int, z: int| in_chunk(x, y, z) ==> #[trigger] nb.center.block(x, y, z) == BlockTypes::AIR,
    ensures
        shown_faces(nb, chunk_volume() as nat).len() == 0,
{
    let faces = shown_faces(nb, chunk_volume() as nat);
    lemma_shown_faces_exact(nb, chunk_volume() as nat);
    lemma_shown_faces_in_chunk(nb, chunk_volume() as nat);
    if faces.len() > 0 {
        let q = faces[0];
        assert(face_shown(nb, q.0, q.1, q.2, q.3));
        assert(in_chunk(q.0, q.1, q.2));
        assert(nb.center.block(q.0, q.1, q.2) == BlockTypes::AIR);
    }
}

/// Every face of the first `n <= 32768` blocks belongs to a block inside the chunk.
pub proof fn lemma_shown_faces_in_chunk(nb: ChunkNeighborhood, n: nat)
    requires
        n <= chunk_volume(),
    ensures
        forall|i: int| 0 <= i < shown_faces(nb, n).len() ==> {
            let q = #[trigger] shown_faces(nb, n)[i];
            in_chunk(q.0, q.1, q.2)
        },
    decreases n,
{
    if n > 0 {
        let n1 = (n - 1) as nat;
        lemma_shown_faces_in_chunk(nb, n1);
        let c = n - 1;
        lemma_cell_faces_exact(nb, cell_x(c), cell_y(c), cell_z(c), 6);
        let prev = shown_faces(nb, n1);
        let cell = cell_faces(nb, cell_x(c), cell_y(c), cell_z(c), 6);
        let cur = shown_faces(nb, n);
        assert(cur == prev + cell);
        let cu = c as u32;
        assert(cu % 32 < 32 && (cu / 32) % 32 < 32 && cu / 1024 < 32) by (bit_vector)
            requires
                cu < 32768,
        ;
        assert forall|i: int| 0 <= i < cur.len() implies {
            let q = #[trigger] cur[i];
            in_chunk(q.0, q.1, q.2)
        } by {
            if i < prev.len() {
                assert(cur[i] == prev[i]);
            } else {
                assert(cur[i] == cell[i - prev.len()]);
            }
        }
    }
}

/// A mesh's indices all name one of its vertices.
pub proof fn lemma_indices_in_range(
    corner: spec_fn(int, int) -> Seq<int>,
    faces: Seq<FaceRef>,
    block: spec_fn(FaceRef) -> BlockTypes,
    verts: Seq<Vertex>,
    inds: Seq<u32>,
)
    requires
        draws_faces(corner, faces, block, verts, inds),
    ensures
        forall|i: int| 0 <= i < inds.len() ==> #[trigger] inds[i] < verts.len(),
{
    assert forall|i: int| 0 <= i < inds.len() implies #[trigger] inds[i] < verts.len() by {
        assert(i / 6 < faces.len());
    }
}

/// The step from a block to the block beside it across face `f` (+z, -z, +x,
/// -x, +y, -y), in world block coordinates.
pub open spec fn step_across(f: int) -> (int, int, int) {
    if f == 0 {
        (0, 0, 1)
    } else if f == 1 {
        (0, 0, -1)
    } else if f == 2 {
        (1, 0, 0)
    } else if f == 3 {
        (-1, 0, 0)
    } else if f == 4 {
        (0, 1, 0)
    } else {
        (0, -1, 0)
    }
}

/// The block one step across face `f` from block `(x, y, z)` of the centre
/// chunk, found by world position: inside the centre chunk it is read there;
/// outside, it is read from the neighbour chunk on that side at the block's
/// position within its chunk (its coordinates modulo the chunk size), and it
/// is air when that neighbour is not loaded.
pub open spec fn world_block_beside(nb: ChunkNeighborhood, x: int, y: int, z: int, f: int) -> BlockTypes {
    let (dx, dy, dz) = step_across(f);
    let (wx, wy, wz) = (x + dx, y + dy, z + dz);
    if in_chunk(wx, wy, wz) {
        nb.center.block(wx, wy, wz)
    } else {
        match nb.neighbors@[f] {
            Some(c) => c.block(wx % CHUNK_SIZE as int, wy % CHUNK_SIZE as int, wz % CHUNK_SIZE as int),
            None => BlockTypes::AIR,
        }
    }
}

proof fn lemma_face_shown_by_world(nb: ChunkNeighborhood, x: int, y: int, z: int, f: int)
    requires
        in_chunk(x, y, z),
        0 <= f < 6,
    ensures
        face_shown(nb, x, y, z, f) == (nb.center.block(x, y, z) != BlockTypes::AIR && world_block_beside(
            nb,
            x,
            y,
            z,
            f,
        ) == BlockTypes::AIR),
{
    let n = face_normal(f);
    let (dx, dy, dz) = step_across(f);
    assert(n[0] == dx && n[1] == dy && n[2] == dz);
    let (wx, wy, wz) = (x + dx, y + dy, z + dz);
    assert(wrap(wx) == wx % 32 && wrap(wy) == wy % 32 && wrap(wz) == wz % 32);
}

/// A chunk mesh draws exactly the faces that look onto air in world terms:
/// every face it holds belongs to a solid block of the centre chunk whose
/// world neighbour across that face is air (across the chunk's border, the
/// neighbour chunk's block at the same world position, or air when that chunk
/// is not loaded), and every such face is drawn.
pub proof fn lemma_chunk_mesh_faces_by_world_blocks(nb: ChunkNeighborhood)
    ensures
        forall|i: int|
            0 <= i < shown_faces(nb, chunk_volume() as nat).len() ==> {
                let q = #[trigger] shown_faces(nb, chunk_volume() as nat)[i];
                &&& in_chunk(q.0, q.1, q.2)
                &&& 0 <= q.3 < 6
                &&& nb.center.block(q.0, q.1, q.2) != BlockTypes::AIR
                &&& world_block_beside(nb, q.0, q.1, q.2, q.3) == BlockTypes::AIR
            },
        forall|x: int, y: int, z: int, f: int|
            in_chunk(x, y, z) && 0 <= f < 6 && nb.center.block(x, y, z) != BlockTypes::AIR
                && #[trigger] world_block_beside(nb, x, y, z, f) == BlockTypes::AIR ==> shown_faces(
                nb,
                chunk_volume() as nat,
            ).contains((x, y, z, f)),
{
    let v = chunk_volume() as nat;
    lemma_shown_faces_exact(nb, v);
    lemma_shown_faces_in_chunk(nb, v);
    assert forall|i: int| 0 <= i < shown_faces(nb, v).len() implies {
        let q = #[trigger] shown_faces(nb, v)[i];
        &&& in_chunk(q.0, q.1, q.2)
        &&& 0 <= q.3 < 6
        &&& nb.center.block(q.0, q.1, q.2) != BlockTypes::AIR
        &&& world_block_beside(nb, q.0, q.1, q.2, q.3) == BlockTypes::AIR
    } by {
        let q = shown_faces(nb, v)[i];
        lemma_face_shown_by_world(nb, q.0, q.1, q.2, q.3);
    }
    assert forall|x: int, y: int, z: int, f: int|
        in_chunk(x, y, z) && 0 <= f < 6 && nb.center.block(x, y, z) != BlockTypes::AIR
            && #[trigger] world_block_beside(nb, x, y, z, f) == BlockTypes::AIR implies shown_faces(
            nb,
            v,
        ).contains((x, y, z, f)) by {
        lemma_face_shown_by_world(nb, x, y, z, f);
        lemma_cell_coords(x as u32, y as u32, z as u32);
        let c = z * 1024 + y * 32 + x;
        assert(0 <= c < 32768);
        assert(cell_x(c) == x && cell_y(c) == y && cell_z(c) == z);
    }
}

} // verus!
