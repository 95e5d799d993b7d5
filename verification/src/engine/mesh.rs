use vstd::prelude::*;
use crate::engine::data::{block_code, BlockTypes, Vertex, CHUNK_SIZE};
use crate::game::chunk::{chunk_volume, in_chunk, Chunk};

verus! {

/// The direction number of a face normal: +x 0, -x 1, +y 2, -y 3, +z 4, -z 5;
/// any other vector counts as 0.
pub open spec fn normal_code(n: Seq<i8>) -> int {
    if n[0] == 1 && n[1] == 0 && n[2] == 0 {
        0
    } else if n[0] == -1 && n[1] == 0 && n[2] == 0 {
        1
    } else if n[0] == 0 && n[1] == 1 && n[2] == 0 {
        2
    } else if n[0] == 0 && n[1] == -1 && n[2] == 0 {
        3
    } else if n[0] == 0 && n[1] == 0 && n[2] == 1 {
        4
    } else if n[0] == 0 && n[1] == 0 && n[2] == -1 {
        5
    } else {
        0
    }
}

/// The packed word of a vertex: block type in bits 0..8, face direction in bits 8..11.
pub open spec fn packed_info(normal: Seq<i8>, block: BlockTypes) -> int {
    block_code(block) + normal_code(normal) * 256
}

/// Packs a face normal and a block type into a vertex's `packed` word.
pub fn pack_information(normal: [i8; 3], block_type: BlockTypes) -> (p: u32)
    ensures
        p as int == packed_info(normal@, block_type),
{
    let btype: u32 = match block_type {
        BlockTypes::AIR => 0,
        BlockTypes::STONE => 1,
    };
    let n0 = normal[0];
    let n1 = normal[1];
    let n2 = normal[2];
    let dir: u32 = if n0 == 1 && n1 == 0 && n2 == 0 {
        0
    } else if n0 == -1 && n1 == 0 && n2 == 0 {
        1
    } else if n0 == 0 && n1 == 1 && n2 == 0 {
        2
    } else if n0 == 0 && n1 == -1 && n2 == 0 {
        3
    } else if n0 == 0 && n1 == 0 && n2 == 1 {
        4
    } else if n0 == 0 && n1 == 0 && n2 == -1 {
        5
    } else {
        0
    };
    proof {
        assert(normal@.len() == 3);
        assert(btype | (dir << 8) == btype + dir * 256) by (bit_vector)
            requires
                btype < 256,
                dir < 6,
        ;
    }
    btype | (dir << 8)
}

/// The packed word gives back the block type in its low 8 bits and the
/// direction above them.
pub proof fn lemma_packed_info_decodes(normal: Seq<i8>, block: BlockTypes)
    requires
        normal.len() == 3,
    ensures
        ({
            let p = packed_info(normal, block) as u32;
            &&& (p & 0xFF) as int == block_code(block)
            &&& (p >> 8) as int == normal_code(normal)
        }),
{
    let b = block_code(block) as u32;
    let d = normal_code(normal) as u32;
    let p = packed_info(normal, block) as u32;
    assert(p == b + d * 256);
    assert((p & 0xFF) == b && (p >> 8) == d) by (bit_vector)
        requires
            b < 256,
            d < 6,
            p == b + d * 256,
    ;
}

/// A cube face: its outward normal and its four corners, counter-clockwise
/// seen from outside, as offsets from the block's low corner.
pub struct Face {
    pub normal: [i8; 3],
    pub verts: [[i32; 3]; 4],
}

/// Outward normal of face `f`: +z, -z, +x, -x, +y, -y.
pub open spec fn face_normal(f: int) -> Seq<int> {
    if f == 0 {
        seq![0int, 0, 1]
    } else if f == 1 {
        seq![0int, 0, -1]
    } else if f == 2 {
        seq![1int, 0, 0]
    } else if f == 3 {
        seq![-1int, 0, 0]
    } else if f == 4 {
        seq![0int, 1, 0]
    } else {
        seq![0int, -1, 0]
    }
}

/// Direction number that vertices of face `f` carry (+x 0, -x 1, +y 2, -y 3, +z 4, -z 5).
pub open spec fn face_dir_code(f: int) -> int {
    if f == 0 {
        4
    } else if f == 1 {
        5
    } else if f == 2 {
        0
    } else if f == 3 {
        1
    } else if f == 4 {
        2
    } else {
        3
    }
}

/// The packed word of every vertex of face `f` of a block of type `b`.
pub open spec fn face_packed(f: int, b: BlockTypes) -> int {
    block_code(b) + face_dir_code(f) * 256
}

/// A face of the block `(x, y, z)`, numbered `f`.
pub type FaceRef = (int, int, int, int);

/// Vertex `v` of face `fr` of a block of type `b`: its corner, in chunk-local
/// block coordinates, and the packed block type and direction.
pub open spec fn is_face_vertex(
    corner: spec_fn(int, int) -> Seq<int>,
    fr: FaceRef,
    v: int,
    b: BlockTypes,
    vx: Vertex,
) -> bool {
    let c = corner(fr.3, v);
    &&& vx.position@[0] == fr.0 + c[0]
    &&& vx.position@[1] == fr.1 + c[1]
    &&& vx.position@[2] == fr.2 + c[2]
    &&& vx.packed as int == face_packed(fr.3, b)
}

/// Index `j` of the six that draw a quad as two triangles.
pub open spec fn quad_index(j: int) -> int {
    if j == 0 {
        0
    } else if j == 1 {
        1
    } else if j == 2 {
        2
    } else if j == 3 {
        0
    } else if j == 4 {
        2
    } else {
        3
    }
}

/// `verts` and `inds` draw exactly the faces `faces` of blocks whose types `block` gives:
/// four vertices per face in order, and the two triangles (0,1,2) and (0,2,3) of each quad.
pub open spec fn draws_faces(
    corner: spec_fn(int, int) -> Seq<int>,
    faces: Seq<FaceRef>,
    block: spec_fn(FaceRef) -> BlockTypes,
    verts: Seq<Vertex>,
    inds: Seq<u32>,
) -> bool {
    &&& verts.len() == 4 * faces.len()
    &&& inds.len() == 6 * faces.len()
    &&& forall|i: int|
        0 <= i < verts.len() ==> is_face_vertex(corner, faces[i / 4], i % 4, block(faces[i / 4]), #[trigger] verts[i])
    &&& forall|i: int| 0 <= i < inds.len() ==> #[trigger] inds[i] as int == 4 * (i / 6) + quad_index(i % 6)
}

/// Appends the quad of face `f` of block `(x, y, z)`, of type `block`.
pub fn emit_face(
    Ghost(corner): Ghost<spec_fn(int, int) -> Seq<int>>,
    vertices: &mut Vec<Vertex>,
    indices: &mut Vec<u32>,
    x: usize,
    y: usize,
    z: usize,
    f: usize,
    face: &Face,
    block: BlockTypes,
)
    requires
        x < CHUNK_SIZE,
        y < CHUNK_SIZE,
        z < CHUNK_SIZE,
        f < 6,
        old(vertices)@.len() + 4 <= u32::MAX,
        forall|k: int| 0 <= k < 3 ==> #[trigger] face.normal@[k] as int == face_normal(f as int)[k],
        forall|v: int, k: int|
            0 <= v < 4 && 0 <= k < 3 ==> #[trigger] face.verts@[v]@[k] as int == corner(f as int, v)[k]
                && 0 <= face.verts@[v]@[k] <= 1,
    ensures
        final(vertices)@.len() == old(vertices)@.len() + 4,
        final(indices)@.len() == old(indices)@.len() + 6,
        forall|i: int| 0 <= i < old(vertices)@.len() ==> #[trigger] final(vertices)@[i] == old(vertices)@[i],
        forall|i: int| 0 <= i < old(indices)@.len() ==> #[trigger] final(indices)@[i] == old(indices)@[i],
        forall|v: int|
            0 <= v < 4 ==> is_face_vertex(
                corner,
                (x as int, y as int, z as int, f as int),
                v,
                block,
                #[trigger] final(vertices)@[old(vertices)@.len() + v],
            ),
        forall|j: int|
            0 <= j < 6 ==> #[trigger] final(indices)@[old(indices)@.len() + j] as int == old(vertices)@.len()
                + quad_index(j),
{
    let base_index = vertices.len() as u32;
    let packed: u32 = pack_information(face.normal, block);
    proof {
        assert(packed_info(face.normal@, block) == face_packed(f as int, block));
    }
    let ghost start = vertices@.len();
    for v in 0..4
        invariant
            x < CHUNK_SIZE,
            y < CHUNK_SIZE,
            z < CHUNK_SIZE,
            f < 6,
            packed as int == face_packed(f as int, block),
            vertices@.len() == start + v,
            forall|i: int| 0 <= i < start ==> #[trigger] vertices@[i] == old(vertices)@[i],
            start == old(vertices)@.len(),
            forall|v: int, k: int|
                0 <= v < 4 && 0 <= k < 3 ==> #[trigger] face.verts@[v]@[k] as int == corner(f as int, v)[k]
                    && 0 <= face.verts@[v]@[k] <= 1,
            forall|w: int|
                0 <= w < v ==> is_face_vertex(
                    corner,
                    (x as int, y as int, z as int, f as int),
                    w,
                    block,
                    #[trigger] vertices@[start + w],
                ),
    {
        let c = face.verts[v];
        proof {
            assert(c@[0] as int == corner(f as int, v as int)[0]);
            assert(c@[1] as int == corner(f as int, v as int)[1]);
            assert(c@[2] as int == corner(f as int, v as int)[2]);
            assert(0 <= c@[0] <= 1 && 0 <= c@[1] <= 1 && 0 <= c@[2] <= 1);
        }
        let vx = Vertex { position: [x as i32 + c[0], y as i32 + c[1], z as i32 + c[2]], packed };
        vertices.push(vx);
        proof {
            assert(vertices@[start + v as int] == vx);
        }
    }
    indices.push(base_index);
    indices.push(base_index + 1);
    indices.push(base_index + 2);
    indices.push(base_index);
    indices.push(base_index + 2);
    indices.push(base_index + 3);
}

/// Block number `c` in meshing order: z slowest, then y, then x.
pub open spec fn cell_x(c: int) -> int {
    c % CHUNK_SIZE as int
}

pub open spec fn cell_y(c: int) -> int {
    (c / CHUNK_SIZE as int) % CHUNK_SIZE as int
}

pub open spec fn cell_z(c: int) -> int {
    c / (CHUNK_SIZE * CHUNK_SIZE) as int
}

pub proof fn lemma_cell_coords(x: u32, y: u32, z: u32)
    requires
        x < 32,
        y < 32,
        z < 32,
    ensures
        cell_x(z * 1024 + y * 32 + x) == x,
        cell_y(z * 1024 + y * 32 + x) == y,
        cell_z(z * 1024 + y * 32 + x) == z,
{
    assert((z * 1024 + y * 32 + x) % 32 == x && ((z * 1024 + y * 32 + x) / 32) % 32 == y && (z
        * 1024 + y * 32 + x) / 1024 == z) by (bit_vector)
        requires
            x < 32,
            y < 32,
            z < 32,
    ;
}

pub proof fn lemma_draws_push(
    corner: spec_fn(int, int) -> Seq<int>,
    faces: Seq<FaceRef>,
    block: spec_fn(FaceRef) -> BlockTypes,
    verts: Seq<Vertex>,
    inds: Seq<u32>,
    new_verts: Seq<Vertex>,
    new_inds: Seq<u32>,
    fr: FaceRef,
)
    requires
        draws_faces(corner, faces, block, verts, inds),
        new_verts.len() == verts.len() + 4,
        new_inds.len() == inds.len() + 6,
        forall|i: int| 0 <= i < verts.len() ==> #[trigger] new_verts[i] == verts[i],
        forall|i: int| 0 <= i < inds.len() ==> #[trigger] new_inds[i] == inds[i],
        forall|v: int| 0 <= v < 4 ==> is_face_vertex(corner, fr, v, block(fr), #[trigger] new_verts[verts.len() + v]),
        forall|j: int| 0 <= j < 6 ==> #[trigger] new_inds[inds.len() + j] as int == verts.len() + quad_index(j),
    ensures
        draws_faces(corner, faces.push(fr), block, new_verts, new_inds),
{
    let n = faces.len();
    let nf = faces.push(fr);
    assert forall|i: int| 0 <= i < new_verts.len() implies is_face_vertex(
        corner,
        nf[i / 4],
        i % 4,
        block(nf[i / 4]),
        #[trigger] new_verts[i],
    ) by {
        if i < verts.len() {
            assert(i / 4 < n);
            assert(nf[i / 4] == faces[i / 4]);
            assert(new_verts[i] == verts[i]);
        } else {
            assert(i / 4 == n);
            assert(i % 4 == i - verts.len());
            assert(new_verts[verts.len() + (i - verts.len())] == new_verts[i]);
        }
    }
    assert forall|i: int| 0 <= i < new_inds.len() implies #[trigger] new_inds[i] as int == 4 * (i / 6)
        + quad_index(i % 6) by {
        if i < inds.len() {
            assert(new_inds[i] == inds[i]);
        } else {
            assert(i / 6 == n);
            assert(i % 6 == i - inds.len());
            assert(new_inds[inds.len() + (i - inds.len())] == new_inds[i]);
        }
    }
}


/// Corner `v` of face `f` in whole-grid meshes, as an offset from the block's low corner.
pub open spec fn face_corner(f: int, v: int) -> Seq<int> {
    if f == 0 {
        if v == 0 { seq![0int, 0, 1] } else if v == 1 { seq![1int, 0, 1] } else if v == 2 { seq![1int, 1, 1] } else { seq![0int, 1, 1] }
    } else if f == 1 {
        if v == 0 { seq![0int, 0, 0] } else if v == 1 { seq![0int, 1, 0] } else if v == 2 { seq![1int, 1, 0] } else { seq![1int, 0, 0] }
    } else if f == 2 {
        if v == 0 { seq![1int, 0, 0] } else if v == 1 { seq![1int, 1, 0] } else if v == 2 { seq![1int, 1, 1] } else { seq![1int, 0, 1] }
    } else if f == 3 {
        if v == 0 { seq![0int, 0, 0] } else if v == 1 { seq![0int, 0, 1] } else if v == 2 { seq![0int, 1, 1] } else { seq![0int, 1, 0] }
    } else if f == 4 {
        if v == 0 { seq![0int, 1, 0] } else if v == 1 { seq![0int, 1, 1] } else if v == 2 { seq![1int, 1, 1] } else { seq![1int, 1, 0] }
    } else {
        if v == 0 { seq![0int, 0, 0] } else if v == 1 { seq![1int, 0, 0] } else if v == 2 { seq![1int, 0, 1] } else { seq![0int, 0, 1] }
    }
}

/// The difference `a - b` of two integer 3-vectors.
pub open spec fn sub3(a: Seq<int>, b: Seq<int>) -> Seq<int> {
    seq![a[0] - b[0], a[1] - b[1], a[2] - b[2]]
}

/// The cross product `a x b` of two integer 3-vectors.
pub open spec fn cross3(a: Seq<int>, b: Seq<int>) -> Seq<int> {
    seq![a[1] * b[2] - a[2] * b[1], a[2] * b[0] - a[0] * b[2], a[0] * b[1] - a[1] * b[0]]
}

/// `c` is a corner of the unit block lying on the side that the unit axis
/// vector `n` points to: coordinate 1 along a positive axis, 0 along a negative one.
pub open spec fn on_side(c: Seq<int>, n: Seq<int>) -> bool {
    &&& 0 <= c[0] <= 1 && 0 <= c[1] <= 1 && 0 <= c[2] <= 1
    &&& n[0] > 0 ==> c[0] == 1
    &&& n[0] < 0 ==> c[0] == 0
    &&& n[1] > 0 ==> c[1] == 1
    &&& n[1] < 0 ==> c[1] == 0
    &&& n[2] > 0 ==> c[2] == 1
    &&& n[2] < 0 ==> c[2] == 0
}

/// The quad `c0 c1 c2 c3` is a face of the unit block, drawn as the triangles
/// (0, 1, 2) and (0, 2, 3), both counter-clockwise seen from outside the block:
/// both triangles' normals `(c1 - c0) x (c2 - c0)` and `(c2 - c0) x (c3 - c0)`
/// are the same unit axis vector `n`, and all four corners lie on the side of
/// the block that `n` points to.
pub open spec fn outward_unit_quad(c0: Seq<int>, c1: Seq<int>, c2: Seq<int>, c3: Seq<int>) -> bool {
    let n = cross3(sub3(c1, c0), sub3(c2, c0));
    let m = cross3(sub3(c2, c0), sub3(c3, c0));
    &&& m[0] == n[0] && m[1] == n[1] && m[2] == n[2]
    &&& n[0] * n[0] + n[1] * n[1] + n[2] * n[2] == 1
    &&& on_side(c0, n) && on_side(c1, n) && on_side(c2, n) && on_side(c3, n)
}

/// Every face of a whole-grid mesh is wound counter-clockwise seen from
/// outside its block, so back-face culling keeps exactly the faces that look
/// away from the block; its outward normal is the face's normal.
#[verifier::spinoff_prover]
#[verifier::rlimit(50)]
pub proof fn lemma_grid_faces_wound_outward(f: int)
    requires
        0 <= f < 6,
    ensures
        outward_unit_quad(face_corner(f, 0), face_corner(f, 1), face_corner(f, 2), face_corner(f, 3)),
        ({
            let n = cross3(sub3(face_corner(f, 1), face_corner(f, 0)), sub3(face_corner(f, 2), face_corner(f, 0)));
            n[0] == face_normal(f)[0] && n[1] == face_normal(f)[1] && n[2] == face_normal(f)[2]
        }),
{
    let c0 = face_corner(f, 0);
    let c1 = face_corner(f, 1);
    let c2 = face_corner(f, 2);
    let c3 = face_corner(f, 3);
    let d1 = sub3(c1, c0);
    let d2 = sub3(c2, c0);
    let d3 = sub3(c3, c0);
    let n = cross3(d1, d2);
    let m = cross3(d2, d3);
    assert(n[0] == d1[1] * d2[2] - d1[2] * d2[1] && n[1] == d1[2] * d2[0] - d1[0] * d2[2] && n[2] == d1[0]
        * d2[1] - d1[1] * d2[0]);
    assert(m[0] == d2[1] * d3[2] - d2[2] * d3[1] && m[1] == d2[2] * d3[0] - d2[0] * d3[2] && m[2] == d2[0]
        * d3[1] - d2[1] * d3[0]);
    assert(d1[0] == c1[0] - c0[0] && d1[1] == c1[1] - c0[1] && d1[2] == c1[2] - c0[2]);
    assert(d2[0] == c2[0] - c0[0] && d2[1] == c2[1] - c0[1] && d2[2] == c2[2] - c0[2]);
    assert(d3[0] == c3[0] - c0[0] && d3[1] == c3[1] - c0[1] && d3[2] == c3[2] - c0[2]);
    let (x1, y1, z1, x2, y2, z2, x3, y3, z3) = (d1[0], d1[1], d1[2], d2[0], d2[1], d2[2], d3[0], d3[1], d3[2]);
    if f == 0 {
        assert(x1 == 1 && y1 == 0 && z1 == 0 && x2 == 1 && y2 == 1 && z2 == 0 && x3 == 0 && y3 == 1 && z3 == 0);
        assert(n[0] == 0 && n[1] == 0 && n[2] == 1 && m[0] == 0 && m[1] == 0 && m[2] == 1 && n[0] * n[0] + n[1] * n[1] + n[2] * n[2] == 1) by (nonlinear_arith)
            requires
                n[0] == y1 * z2 - z1 * y2, n[1] == z1 * x2 - x1 * z2, n[2] == x1 * y2 - y1 * x2, m[0] == y2 * z3 - z2 * y3, m[1] == z2 * x3 - x2 * z3, m[2] == x2 * y3 - y2 * x3, x1 == 1, y1 == 0, z1 == 0, x2 == 1, y2 == 1, z2 == 0, x3 == 0, y3 == 1, z3 == 0,
        ;
    } else if f == 1 {
        assert(x1 == 0 && y1 == 1 && z1 == 0 && x2 == 1 && y2 == 1 && z2 == 0 && x3 == 1 && y3 == 0 && z3 == 0);
        assert(n[0] == 0 && n[1] == 0 && n[2] == -1 && m[0] == 0 && m[1] == 0 && m[2] == -1 && n[0] * n[0] + n[1] * n[1] + n[2] * n[2] == 1) by (nonlinear_arith)
            requires
                n[0] == y1 * z2 - z1 * y2, n[1] == z1 * x2 - x1 * z2, n[2] == x1 * y2 - y1 * x2, m[0] == y2 * z3 - z2 * y3, m[1] == z2 * x3 - x2 * z3, m[2] == x2 * y3 - y2 * x3, x1 == 0, y1 == 1, z1 == 0, x2 == 1, y2 == 1, z2 == 0, x3 == 1, y3 == 0, z3 == 0,
        ;
    } else if f == 2 {
        assert(x1 == 0 && y1 == 1 && z1 == 0 && x2 == 0 && y2 == 1 && z2 == 1 && x3 == 0 && y3 == 0 && z3 == 1);
        assert(n[0] == 1 && n[1] == 0 && n[2] == 0 && m[0] == 1 && m[1] == 0 && m[2] == 0 && n[0] * n[0] + n[1] * n[1] + n[2] * n[2] == 1) by (nonlinear_arith)
            requires
                n[0] == y1 * z2 - z1 * y2, n[1] == z1 * x2 - x1 * z2, n[2] == x1 * y2 - y1 * x2, m[0] == y2 * z3 - z2 * y3, m[1] == z2 * x3 - x2 * z3, m[2] == x2 * y3 - y2 * x3, x1 == 0, y1 == 1, z1 == 0, x2 == 0, y2 == 1, z2 == 1, x3 == 0, y3 == 0, z3 == 1,
        ;
    } else if f == 3 {
        assert(x1 == 0 && y1 == 0 && z1 == 1 && x2 == 0 && y2 == 1 && z2 == 1 && x3 == 0 && y3 == 1 && z3 == 0);
        assert(n[0] == -1 && n[1] == 0 && n[2] == 0 && m[0] == -1 && m[1] == 0 && m[2] == 0 && n[0] * n[0] + n[1] * n[1] + n[2] * n[2] == 1) by (nonlinear_arith)
            requires
                n[0] == y1 * z2 - z1 * y2, n[1] == z1 * x2 - x1 * z2, n[2] == x1 * y2 - y1 * x2, m[0] == y2 * z3 - z2 * y3, m[1] == z2 * x3 - x2 * z3, m[2] == x2 * y3 - y2 * x3, x1 == 0, y1 == 0, z1 == 1, x2 == 0, y2 == 1, z2 == 1, x3 == 0, y3 == 1, z3 == 0,
        ;
    } else if f == 4 {
        assert(x1 == 0 && y1 == 0 && z1 == 1 && x2 == 1 && y2 == 0 && z2 == 1 && x3 == 1 && y3 == 0 && z3 == 0);
        assert(n[0] == 0 && n[1] == 1 && n[2] == 0 && m[0] == 0 && m[1] == 1 && m[2] == 0 && n[0] * n[0] + n[1] * n[1] + n[2] * n[2] == 1) by (nonlinear_arith)
            requires
                n[0] == y1 * z2 - z1 * y2, n[1] == z1 * x2 - x1 * z2, n[2] == x1 * y2 - y1 * x2, m[0] == y2 * z3 - z2 * y3, m[1] == z2 * x3 - x2 * z3, m[2] == x2 * y3 - y2 * x3, x1 == 0, y1 == 0, z1 == 1, x2 == 1, y2 == 0, z2 == 1, x3 == 1, y3 == 0, z3 == 0,
        ;
    } else {
        assert(x1 == 1 && y1 == 0 && z1 == 0 && x2 == 1 && y2 == 0 && z2 == 1 && x3 == 0 && y3 == 0 && z3 == 1);
        assert(n[0] == 0 && n[1] == -1 && n[2] == 0 && m[0] == 0 && m[1] == -1 && m[2] == 0 && n[0] * n[0] + n[1] * n[1] + n[2] * n[2] == 1) by (nonlinear_arith)
            requires
                n[0] == y1 * z2 - z1 * y2, n[1] == z1 * x2 - x1 * z2, n[2] == x1 * y2 - y1 * x2, m[0] == y2 * z3 - z2 * y3, m[1] == z2 * x3 - x2 * z3, m[2] == x2 * y3 - y2 * x3, x1 == 1, y1 == 0, z1 == 0, x2 == 1, y2 == 0, z2 == 1, x3 == 0, y3 == 0, z3 == 1,
        ;
    }
}

/// Face `f` of a block in whole-grid meshes (0 +z, 1 -z, 2 +x, 3 -x, 4 +y, 5 -y).
pub fn face(f: usize) -> (face: Face)
    requires
        f < 6,
    ensures
        forall|k: int| 0 <= k < 3 ==> #[trigger] face.normal@[k] as int == face_normal(f as int)[k],
        forall|v: int, k: int|
            0 <= v < 4 && 0 <= k < 3 ==> #[trigger] face.verts@[v]@[k] as int == face_corner(f as int, v)[k],
{
    let face = if f == 0 {
        Face { normal: [0, 0, 1], verts: [[0, 0, 1], [1, 0, 1], [1, 1, 1], [0, 1, 1]] }
    } else if f == 1 {
        Face { normal: [0, 0, -1], verts: [[0, 0, 0], [0, 1, 0], [1, 1, 0], [1, 0, 0]] }
    } else if f == 2 {
        Face { normal: [1, 0, 0], verts: [[1, 0, 0], [1, 1, 0], [1, 1, 1], [1, 0, 1]] }
    } else if f == 3 {
        Face { normal: [-1, 0, 0], verts: [[0, 0, 0], [0, 0, 1], [0, 1, 1], [0, 1, 0]] }
    } else if f == 4 {
        Face { normal: [0, 1, 0], verts: [[0, 1, 0], [0, 1, 1], [1, 1, 1], [1, 1, 0]] }
    } else {
        Face { normal: [0, -1, 0], verts: [[0, 0, 0], [1, 0, 0], [1, 0, 1], [0, 0, 1]] }
    };
    face
}

/// Vertices and triangle indices of a block grid.
pub struct Mesh {
    pub vertices: Vec<Vertex>,
    pub indices: Vec<u32>,
}

/// The unit square in the z = 0 plane, as two triangles.
impl Default for Mesh {
    fn default() -> (m: Self)
        ensures
            m.vertices@.len() == 4,
            m.vertices@[0].position@ == seq![-1i32, -1i32, 0i32] && m.vertices@[0].packed == 0,
            m.vertices@[1].position@ == seq![1i32, -1i32, 0i32] && m.vertices@[1].packed == 0,
            m.vertices@[2].position@ == seq![1i32, 1, 0] && m.vertices@[2].packed == 0,
            m.vertices@[3].position@ == seq![-1i32, 1, 0] && m.vertices@[3].packed == 0,
            m.indices@ == seq![0u32, 1, 2, 2, 3, 0],
    {
        let vertices = vec![
            Vertex { position: [-1, -1, 0], packed: 0 },
            Vertex { position: [1, -1, 0], packed: 0 },
            Vertex { position: [1, 1, 0], packed: 0 },
            Vertex { position: [-1, 1, 0], packed: 0 },
        ];
        let indices = vec![0, 1, 2, 2, 3, 0];
        proof {
            assert(vertices@[0].position@ =~= seq![-1i32, -1i32, 0i32]);
            assert(vertices@[1].position@ =~= seq![1i32, -1i32, 0i32]);
            assert(vertices@[2].position@ =~= seq![1i32, 1, 0]);
            assert(vertices@[3].position@ =~= seq![-1i32, 1, 0]);
            assert(indices@ =~= seq![0u32, 1, 2, 2, 3, 0]);
        }
        Mesh { vertices, indices }
    }
}

/// Whether face `f` of block `(x, y, z)` of a lone grid is drawn: the block is
/// solid and the block beside it across `f` is air or outside the grid.
pub open spec fn face_visible(chunk: Chunk, x: int, y: int, z: int, f: int) -> bool {
    let n = face_normal(f);
    let nx = x + n[0];
    let ny = y + n[1];
    let nz = z + n[2];
    &&& chunk.block(x, y, z) != BlockTypes::AIR
    &&& (!in_chunk(nx, ny, nz) || chunk.block(nx, ny, nz) == BlockTypes::AIR)
}

/// The drawn faces among the first `k` faces of block `(x, y, z)`, in face order.
pub open spec fn visible_cell_faces(chunk: Chunk, x: int, y: int, z: int, k: nat) -> Seq<FaceRef>
    decreases k,
{
    if k == 0 {
        Seq::empty()
    } else {
        let prev = visible_cell_faces(chunk, x, y, z, (k - 1) as nat);
        if face_visible(chunk, x, y, z, k - 1) {
            prev.push((x, y, z, k - 1))
        } else {
            prev
        }
    }
}

/// The drawn faces of the first `n` blocks in meshing order (z, then y, then x).
pub open spec fn visible_faces(chunk: Chunk, n: nat) -> Seq<FaceRef>
    decreases n,
{
    if n == 0 {
        Seq::empty()
    } else {
        visible_faces(chunk, (n - 1) as nat) + visible_cell_faces(
            chunk,
            cell_x(n - 1),
            cell_y(n - 1),
            cell_z(n - 1),
            6,
        )
    }
}

/// The type of the block that owns a face.
pub open spec fn owner_block(chunk: Chunk) -> spec_fn(FaceRef) -> BlockTypes {
    |fr: FaceRef| chunk.block(fr.0, fr.1, fr.2)
}

/// Meshes a lone block grid: for every solid block, in z, y, x order, and for
/// each of its faces in face order whose neighbouring block is air or lies
/// outside the grid, a quad of four vertices and six indices.
pub fn mesh_chunk(chunk: &Chunk) -> (mesh: Mesh)
    requires
        chunk.wf(),
    ensures
        draws_faces(
            |f: int, v: int| face_corner(f, v),
            visible_faces(*chunk, chunk_volume() as nat),
            owner_block(*chunk),
            mesh.vertices@,
            mesh.indices@,
        ),
{
    let mut vertices: Vec<Vertex> = Vec::new();
    let mut indices: Vec<u32> = Vec::new();
    let ghost ch = *chunk;
    let ghost blk = owner_block(ch);
    let ghost corner = |f: int, v: int| face_corner(f, v);
    let ghost mut faces: Seq<FaceRef> = Seq::empty();
    let s = CHUNK_SIZE as i32;
    for z in 0..CHUNK_SIZE
        invariant
            chunk.wf(),
            ch == *chunk,
            s == 32,
            blk == owner_block(ch),
            corner == (|f: int, v: int| face_corner(f, v)),
            faces == visible_faces(ch, (z * 1024) as nat),
            faces.len() <= 6 * (z * 1024),
            draws_faces(corner, faces, blk, vertices@, indices@),
    {
        for y in 0..CHUNK_SIZE
            invariant
                z < CHUNK_SIZE,
                chunk.wf(),
                ch == *chunk,
                s == 32,
                blk == owner_block(ch),
                corner == (|f: int, v: int| face_corner(f, v)),
                faces == visible_faces(ch, (z * 1024 + y * 32) as nat),
                faces.len() <= 6 * (z * 1024 + y * 32),
                draws_faces(corner, faces, blk, vertices@, indices@),
        {
            for x in 0..CHUNK_SIZE
                invariant
                    y < CHUNK_SIZE,
                    z < CHUNK_SIZE,
                    chunk.wf(),
                    ch == *chunk,
                    s == 32,
                    blk == owner_block(ch),
                    corner == (|f: int, v: int| face_corner(f, v)),
                    faces == visible_faces(ch, (z * 1024 + y * 32 + x) as nat),
                    faces.len() <= 6 * (z * 1024 + y * 32 + x),
                    draws_faces(corner, faces, blk, vertices@, indices@),
            {
                let ghost c: int = z * 1024 + y * 32 + x;
                proof {
                    lemma_cell_coords(x as u32, y as u32, z as u32);
                }
                let block = chunk.get(x, y, z);
                if block == BlockTypes::AIR {
                    proof {
                        assert(visible_cell_faces(ch, x as int, y as int, z as int, 6) =~= Seq::empty()) by {
                            reveal_with_fuel(visible_cell_faces, 7);
                        }
                    }
                } else {
                    for f in 0..6
                        invariant
                            x < CHUNK_SIZE,
                            y < CHUNK_SIZE,
                            z < CHUNK_SIZE,
                            s == 32,
                            c == z * 1024 + y * 32 + x,
                            cell_x(c) == x,
                            cell_y(c) == y,
                            cell_z(c) == z,
                            block == ch.block(x as int, y as int, z as int),
                            block != BlockTypes::AIR,
                            chunk.wf(),
                            ch == *chunk,
                            blk == owner_block(ch),
                            corner == (|f: int, v: int| face_corner(f, v)),
                            faces == visible_faces(ch, c as nat) + visible_cell_faces(
                                ch,
                                x as int,
                                y as int,
                                z as int,
                                f as nat,
                            ),
                            faces.len() <= 6 * c + f,
                            draws_faces(corner, faces, blk, vertices@, indices@),
                    {
                        let face = face(f);
                        proof {
                            assert(face.normal@[0] as int == face_normal(f as int)[0]);
                            assert(face.normal@[1] as int == face_normal(f as int)[1]);
                            assert(face.normal@[2] as int == face_normal(f as int)[2]);
                        }
                        let nx = x as i32 + face.normal[0] as i32;
                        let ny = y as i32 + face.normal[1] as i32;
                        let nz = z as i32 + face.normal[2] as i32;
                        let neighbor_is_air = nx < 0 || ny < 0 || nz < 0 || nx >= s || ny >= s || nz >= s
                            || chunk.get(nx as usize, ny as usize, nz as usize) == BlockTypes::AIR;
                        if neighbor_is_air {
                            let ghost old_v = vertices@;
                            let ghost old_i = indices@;
                            emit_face(Ghost(corner), &mut vertices, &mut indices, x, y, z, f, &face, block);
                            proof {
                                let fr: FaceRef = (x as int, y as int, z as int, f as int);
                                lemma_draws_push(corner, faces, blk, old_v, old_i, vertices@, indices@, fr);
                                faces = faces.push(fr);
                            }
                        }
                        proof {
                            assert(neighbor_is_air == face_visible(ch, x as int, y as int, z as int, f as int));
                            assert(faces =~= visible_faces(ch, c as nat) + visible_cell_faces(
                                ch,
                                x as int,
                                y as int,
                                z as int,
                                (f + 1) as nat,
                            ));
                        }
                    }
                }
                proof {
                    assert(visible_faces(ch, (c + 1) as nat) == faces);
                }
            }
        }
    }
    Mesh { vertices, indices }
}


proof fn lemma_visible_cell_faces_exact(chunk: Chunk, x: int, y: int, z: int, k: nat)
    requires
        k <= 6,
    ensures
        forall|i: int|
            0 <= i < visible_cell_faces(chunk, x, y, z, k).len() ==> {
                let q = #[trigger] visible_cell_faces(chunk, x, y, z, k)[i];
                &&& q.0 == x && q.1 == y && q.2 == z
                &&& 0 <= q.3 < k
                &&& face_visible(chunk, x, y, z, q.3)
            },
        forall|f: int|
            0 <= f < k && face_visible(chunk, x, y, z, f) ==> #[trigger] visible_cell_faces(chunk, x, y, z, k).contains(
                (x, y, z, f),
            ),
    decreases k,
{
    if k > 0 {
        let k1 = (k - 1) as nat;
        lemma_visible_cell_faces_exact(chunk, x, y, z, k1);
        let prev = visible_cell_faces(chunk, x, y, z, k1);
        let cur = visible_cell_faces(chunk, x, y, z, k);
        assert(cur == if face_visible(chunk, x, y, z, k1 as int) { prev.push((x, y, z, k1 as int)) } else { prev });
        assert forall|f: int| 0 <= f < k && face_visible(chunk, x, y, z, f) implies #[trigger] cur.contains(
            (x, y, z, f),
        ) by {
            if f < k1 {
                assert(prev.contains((x, y, z, f)));
                let j = choose|j: int| 0 <= j < prev.len() && prev[j] == (x, y, z, f);
                assert(cur[j] == prev[j]);
            } else {
                assert(cur[cur.len() - 1] == (x, y, z, f));
            }
        }
    }
}

/// Every face in a whole-grid mesh is visible (its block is solid and the
/// block beside it is air or outside the grid), and every visible face of the
/// first `n` blocks is in it.
pub proof fn lemma_visible_faces_exact(chunk: Chunk, n: nat)
    ensures
        forall|i: int|
            0 <= i < visible_faces(chunk, n).len() ==> {
                let q = #[trigger] visible_faces(chunk, n)[i];
                &&& 0 <= q.3 < 6
                &&& face_visible(chunk, q.0, q.1, q.2, q.3)
            },
        forall|c: int, f: int|
            0 <= c < n && 0 <= f < 6 && face_visible(chunk, cell_x(c), cell_y(c), cell_z(c), f)
                ==> #[trigger] visible_faces(chunk, n).contains((cell_x(c), cell_y(c), cell_z(c), f)),
    decreases n,
{
    if n > 0 {
        let n1 = (n - 1) as nat;
        lemma_visible_faces_exact(chunk, n1);
        let c = n - 1;
        lemma_visible_cell_faces_exact(chunk, cell_x(c), cell_y(c), cell_z(c), 6);
        let prev = visible_faces(chunk, n1);
        let cell = visible_cell_faces(chunk, cell_x(c), cell_y(c), cell_z(c), 6);
        let cur = visible_faces(chunk, n);
        assert(cur == prev + cell);
        assert forall|i: int| 0 <= i < cur.len() implies {
            let q = #[trigger] cur[i];
            &&& 0 <= q.3 < 6
            &&& face_visible(chunk, q.0, q.1, q.2, q.3)
        } by {
            if i < prev.len() {
                assert(cur[i] == prev[i]);
            } else {
                assert(cur[i] == cell[i - prev.len()]);
            }
        }
        assert forall|d: int, f: int|
            0 <= d < n && 0 <= f < 6 && face_visible(chunk, cell_x(d), cell_y(d), cell_z(d), f) implies #[trigger] cur.contains(
            (cell_x(d), cell_y(d), cell_z(d), f),
        ) by {
            let q = (cell_x(d), cell_y(d), cell_z(d), f);
            if d < n1 {
                assert(prev.contains(q));
                let j = choose|j: int| 0 <= j < prev.len() && prev[j] == q;
                assert(cur[j] == q);
            } else {
                assert(cell.contains(q));
                let j = choose|j: int| 0 <= j < cell.len() && cell[j] == q;
                assert(cur[prev.len() + j] == q);
            }
        }
    }
}

} // verus!
