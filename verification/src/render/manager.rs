use vstd::prelude::*;
use std::ops::Range;
use rustc_hash::FxHashMap;
use crate::engine::data::VERTEX_STRIDE;
use crate::engine::meshgen::Mesh;

verus! {

/// Bytes in a range of a buffer.
pub open spec fn span(r: Range<u64>) -> int {
    r.end - r.start
}

/// A range whose start is not past its end.
pub open spec fn well_ordered(r: Range<u64>) -> bool {
    r.start <= r.end
}

/// The first free region of at least `size` bytes, or `regions.len()` when none is.
pub open spec fn first_fit(regions: Seq<Range<u64>>, size: u64) -> int
    decreases regions.len(),
{
    if regions.len() == 0 {
        0
    } else if span(regions[0]) >= size {
        0
    } else {
        1 + first_fit(regions.drop_first(), size)
    }
}

/// Where `find_space` puts `size` bytes and what it leaves: the start of the
/// space, the free regions afterwards, and the cursor afterwards. The first
/// free region that is large enough is taken and its unused tail (if any) goes
/// back to the end of the list; when none is large enough the space is taken
/// at the cursor, which moves past it.
pub open spec fn placement(regions: Seq<Range<u64>>, size: u64, cursor: u64) -> (u64, Seq<Range<u64>>, u64) {
    let p = first_fit(regions, size);
    if p < regions.len() {
        let hole = regions[p];
        let rest = regions.remove(p);
        if span(hole) > size {
            (hole.start, rest.push(Range { start: (hole.start + size) as u64, end: hole.end }), cursor)
        } else {
            (hole.start, rest, cursor)
        }
    } else {
        (cursor, regions, (cursor + size) as u64)
    }
}

/// Free regions that are well ordered, lie below `cursor` and do not overlap.
pub open spec fn free_list_ok(regions: Seq<Range<u64>>, cursor: u64) -> bool {
    &&& forall|i: int| 0 <= i < regions.len() ==> well_ordered(#[trigger] regions[i]) && regions[i].end <= cursor
    &&& forall|i: int, j: int|
        0 <= i < j < regions.len() ==> #[trigger] regions[i].end <= #[trigger] regions[j].start
            || regions[j].end <= regions[i].start || span(regions[i]) == 0 || span(regions[j]) == 0
}

/// Two ranges share no byte.
pub open spec fn disjoint(a: Range<u64>, b: Range<u64>) -> bool {
    a.end <= b.start || b.end <= a.start || span(a) == 0 || span(b) == 0
}

proof fn lemma_first_fit(regions: Seq<Range<u64>>, size: u64)
    ensures
        0 <= first_fit(regions, size) <= regions.len(),
        first_fit(regions, size) < regions.len() ==> span(regions[first_fit(regions, size)]) >= size,
        forall|j: int| 0 <= j < first_fit(regions, size) ==> span(#[trigger] regions[j]) < size,
    decreases regions.len(),
{
    if regions.len() > 0 && span(regions[0]) < size {
        lemma_first_fit(regions.drop_first(), size);
        assert forall|j: int| 0 <= j < first_fit(regions, size) implies span(#[trigger] regions[j]) < size by {
            if j > 0 {
                assert(regions[j] == regions.drop_first()[j - 1]);
            }
        }
    }
}

/// Space handed out by `find_space` overlaps no region that stays free and
/// lies below the new cursor, and the free list stays well formed, whenever
/// it was well formed before.
pub proof fn lemma_placement_is_safe(regions: Seq<Range<u64>>, size: u64, cursor: u64)
    requires
        free_list_ok(regions, cursor),
        first_fit(regions, size) == regions.len() ==> cursor + size <= u64::MAX,
    ensures
        ({
            let (start, after, new_cursor) = placement(regions, size, cursor);
            &&& start + size <= new_cursor
            &&& free_list_ok(after, new_cursor)
            &&& forall|i: int|
                0 <= i < after.len() ==> disjoint(
                    #[trigger] after[i],
                    Range { start, end: (start + size) as u64 },
                )
        }),
{
    lemma_first_fit(regions, size);
    let p = first_fit(regions, size);
    let (start, after, new_cursor) = placement(regions, size, cursor);
    let taken = Range { start, end: (start + size) as u64 };
    if p < regions.len() {
        let hole = regions[p];
        let rest = regions.remove(p);
        assert forall|i: int| 0 <= i < rest.len() implies disjoint(#[trigger] rest[i], hole) by {
            if i < p {
                assert(rest[i] == regions[i]);
            } else {
                assert(rest[i] == regions[i + 1]);
            }
        }
        assert forall|i: int, j: int| 0 <= i < j < rest.len() implies #[trigger] rest[i].end
            <= #[trigger] rest[j].start || rest[j].end <= rest[i].start || span(rest[i]) == 0 || span(
            rest[j],
        ) == 0 by {
            let oi = if i < p { i } else { i + 1 };
            let oj = if j < p { j } else { j + 1 };
            assert(rest[i] == regions[oi] && rest[j] == regions[oj]);
        }
        assert forall|i: int| 0 <= i < rest.len() implies well_ordered(#[trigger] rest[i]) && rest[i].end
            <= cursor by {
            if i < p {
                assert(rest[i] == regions[i]);
            } else {
                assert(rest[i] == regions[i + 1]);
            }
        }
        if span(hole) > size {
            let tail = Range { start: (hole.start + size) as u64, end: hole.end };
            assert(after == rest.push(tail));
            assert forall|i: int| 0 <= i < after.len() implies disjoint(#[trigger] after[i], taken) by {
                if i < rest.len() {
                    assert(after[i] == rest[i]);
                    assert(disjoint(rest[i], hole));
                }
            }
            assert forall|i: int, j: int| 0 <= i < j < after.len() implies #[trigger] after[i].end
                <= #[trigger] after[j].start || after[j].end <= after[i].start || span(after[i]) == 0
                || span(after[j]) == 0 by {
                if j < rest.len() {
                    assert(after[i] == rest[i] && after[j] == rest[j]);
                } else {
                    assert(after[i] == rest[i] && after[j] == tail);
                    assert(disjoint(rest[i], hole));
                }
            }
            assert forall|i: int| 0 <= i < after.len() implies well_ordered(#[trigger] after[i])
                && after[i].end <= new_cursor by {
                if i < rest.len() {
                    assert(after[i] == rest[i]);
                }
            }
        } else {
            assert forall|i: int| 0 <= i < after.len() implies disjoint(#[trigger] after[i], taken) by {
                assert(after[i] == rest[i]);
                assert(disjoint(rest[i], hole));
            }
        }
    } else {
        assert forall|i: int| 0 <= i < after.len() implies disjoint(#[trigger] after[i], taken) by {
            assert(after[i] == regions[i]);
        }
    }
}

/// Space handed out by `find_space`, and every region left free, stays clear
/// of a range below the cursor that was clear of all free regions.
proof fn lemma_placement_avoids(regions: Seq<Range<u64>>, size: u64, cursor: u64, other: Range<u64>)
    requires
        free_list_ok(regions, cursor),
        first_fit(regions, size) == regions.len() ==> cursor + size <= u64::MAX,
        well_ordered(other),
        other.end <= cursor,
        forall|j: int| 0 <= j < regions.len() ==> disjoint(other, #[trigger] regions[j]),
    ensures
        ({
            let (start, after, new_cursor) = placement(regions, size, cursor);
            &&& disjoint(other, Range { start, end: (start + size) as u64 })
            &&& forall|j: int| 0 <= j < after.len() ==> disjoint(other, #[trigger] after[j])
        }),
{
    lemma_first_fit(regions, size);
    let p = first_fit(regions, size);
    let (start, after, new_cursor) = placement(regions, size, cursor);
    if p < regions.len() {
        let hole = regions[p];
        let rest = regions.remove(p);
        assert(disjoint(other, hole));
        assert forall|j: int| 0 <= j < rest.len() implies disjoint(other, #[trigger] rest[j]) by {
            if j < p {
                assert(rest[j] == regions[j]);
            } else {
                assert(rest[j] == regions[j + 1]);
            }
        }
        if span(hole) > size {
            assert forall|j: int| 0 <= j < after.len() implies disjoint(other, #[trigger] after[j]) by {
                if j < rest.len() {
                    assert(after[j] == rest[j]);
                }
            }
        }
    }
}

/// Where a mesh sits in the two megabuffers, in bytes.
pub struct Allocation {
    pub v_range: Range<u64>,
    pub i_range: Range<u64>,
}

/// A chunk mesh placed in the megabuffers: where its vertices and indices
/// start (in elements), how many indices it draws, and the chunk's position
/// in blocks.
pub struct GPUMesh {
    pub base_vertex: i32,
    pub first_index: u32,
    pub index_count: u32,
    pub world_pos: [i32; 3],
    pub allocation: Allocation,
}

/// The sub-allocator of the terrain vertex and index megabuffers: a cursor
/// past the highest byte handed out, and lists of freed regions.
pub struct Megabuffer {
    pub free_vertex_region: Vec<Range<u64>>,
    pub free_index_region: Vec<Range<u64>>,
    pub v_cursor: u64,
    pub i_cursor: u64,
}

impl Megabuffer {
    /// Nothing handed out and nothing freed.
    pub fn new() -> (m: Self)
        ensures
            m.wf(),
            m.free_vertex_region@.len() == 0,
            m.free_index_region@.len() == 0,
            m.v_cursor == 0,
            m.i_cursor == 0,
    {
        Megabuffer { free_vertex_region: Vec::new(), free_index_region: Vec::new(), v_cursor: 0, i_cursor: 0 }
    }

    /// Finds `size` bytes: in the first free region large enough, whose tail
    /// goes back on the list, or else at the cursor.
    pub fn find_space(regions: &mut Vec<Range<u64>>, size: u64, cursor: &mut u64) -> (start: u64)
        requires
            forall|i: int| 0 <= i < old(regions)@.len() ==> well_ordered(#[trigger] old(regions)@[i]),
            first_fit(old(regions)@, size) == old(regions)@.len() ==> *old(cursor) + size <= u64::MAX,
        ensures
            (start, final(regions)@, *final(cursor)) == placement(old(regions)@, size, *old(cursor)),
    {
        proof {
            lemma_first_fit(regions@, size);
        }
        let mut pos: usize = 0;
        while pos < regions.len()
            invariant
                pos <= regions@.len(),
                regions@ == old(regions)@,
                forall|i: int| 0 <= i < regions@.len() ==> well_ordered(#[trigger] regions@[i]),
                forall|j: int| 0 <= j < pos ==> span(#[trigger] regions@[j]) < size,
            ensures
                pos <= regions@.len(),
                regions@ == old(regions)@,
                forall|j: int| 0 <= j < pos ==> span(#[trigger] regions@[j]) < size,
                pos < regions@.len() ==> span(regions@[pos as int]) >= size,
            decreases regions@.len() - pos,
        {
            if regions[pos].end - regions[pos].start >= size {
                break;
            }
            pos = pos + 1;
        }
        proof {
            lemma_first_fit(regions@, size);
        }
        if pos < regions.len() {
            proof {
                assert(first_fit(regions@, size) == pos);
            }
            let hole = regions.remove(pos);
            let start = hole.start;
            if hole.end - hole.start > size {
                regions.push(Range { start: hole.start + size, end: hole.end });
            }
            return start;
        }
        let start = *cursor;
        *cursor = *cursor + size;
        start
    }

    /// Puts a freed mesh's regions back on the free lists. Only space that
    /// was handed out and is not free already can be freed: well-ordered
    /// ranges below the cursors that share no byte with a free region.
    pub fn free(&mut self, alloc: Allocation)
        requires
            old(self).wf(),
            well_ordered(alloc.v_range),
            well_ordered(alloc.i_range),
            alloc.v_range.end <= old(self).v_cursor,
            alloc.i_range.end <= old(self).i_cursor,
            forall|j: int|
                0 <= j < old(self).free_vertex_region@.len() ==> disjoint(
                    #[trigger] old(self).free_vertex_region@[j],
                    alloc.v_range,
                ),
            forall|j: int|
                0 <= j < old(self).free_index_region@.len() ==> disjoint(
                    #[trigger] old(self).free_index_region@[j],
                    alloc.i_range,
                ),
        ensures
            final(self).wf(),
            final(self).free_index_region@ == old(self).free_index_region@.push(alloc.i_range),
            final(self).free_vertex_region@ == old(self).free_vertex_region@.push(alloc.v_range),
            final(self).v_cursor == old(self).v_cursor,
            final(self).i_cursor == old(self).i_cursor,
    {
        self.free_index_region.push(alloc.i_range);
        self.free_vertex_region.push(alloc.v_range);
    }
}


impl Megabuffer {
    /// The free regions of each buffer are well ordered, lie below its cursor
    /// and share no byte.
    pub open spec fn wf(&self) -> bool {
        &&& free_list_ok(self.free_vertex_region@, self.v_cursor)
        &&& free_list_ok(self.free_index_region@, self.i_cursor)
    }

    /// Whether `bytes` more bytes of vertices and `ibytes` of indices can be
    /// placed without the cursors passing `u64::MAX`.
    pub open spec fn can_place(&self, vbytes: u64, ibytes: u64) -> bool {
        &&& first_fit(self.free_vertex_region@, vbytes) == self.free_vertex_region@.len() ==> self.v_cursor
            + vbytes <= u64::MAX
        &&& first_fit(self.free_index_region@, ibytes) == self.free_index_region@.len() ==> self.i_cursor
            + ibytes <= u64::MAX
    }

    /// Places a mesh: room for its vertices (16 bytes each) and indices
    /// (4 bytes each), found by `find_space` in the two buffers; the result
    /// says where, in bytes and in elements.
    pub fn allocate(&mut self, mesh: &Mesh) -> (gpu_mesh: GPUMesh)
        requires
            old(self).wf(),
            mesh.vertices@.len() * 16 <= usize::MAX,
            mesh.indices@.len() * 4 <= usize::MAX,
            old(self).can_place((mesh.vertices@.len() * 16) as u64, (mesh.indices@.len() * 4) as u64),
        ensures
            final(self).wf(),
            ({
                let vbytes = (mesh.vertices@.len() * 16) as u64;
                let ibytes = (mesh.indices@.len() * 4) as u64;
                let (vs, vregions, vcursor) = placement(old(self).free_vertex_region@, vbytes, old(self).v_cursor);
                let (is, iregions, icursor) = placement(old(self).free_index_region@, ibytes, old(self).i_cursor);
                &&& vs + vbytes <= u64::MAX
                &&& is + ibytes <= u64::MAX
                &&& final(self).free_vertex_region@ == vregions
                &&& final(self).v_cursor == vcursor
                &&& final(self).free_index_region@ == iregions
                &&& final(self).i_cursor == icursor
                &&& gpu_mesh.allocation.v_range == (Range { start: vs, end: (vs + vbytes) as u64 })
                &&& gpu_mesh.allocation.i_range == (Range { start: is, end: (is + ibytes) as u64 })
                &&& gpu_mesh.base_vertex == (vs / 16) as i32
                &&& gpu_mesh.first_index == (is / 4) as u32
                &&& gpu_mesh.index_count == mesh.indices@.len() as u32
                &&& gpu_mesh.world_pos == mesh.world_pos
            }),
    {
        let v_size = (mesh.vertices.len() * 16) as u64;
        let i_size = (mesh.indices.len() * 4) as u64;
        proof {
            lemma_first_fit(self.free_vertex_region@, v_size);
            lemma_first_fit(self.free_index_region@, i_size);
        }
        let v_offset = Self::find_space(&mut self.free_vertex_region, v_size, &mut self.v_cursor);
        let i_offset = Self::find_space(&mut self.free_index_region, i_size, &mut self.i_cursor);
        proof {
            lemma_placement_is_safe(old(self).free_vertex_region@, v_size, old(self).v_cursor);
            lemma_placement_is_safe(old(self).free_index_region@, i_size, old(self).i_cursor);
        }
        let index_count = #[verifier::truncate] (mesh.indices.len() as u32);
        GPUMesh {
            base_vertex: #[verifier::truncate] ((v_offset / VERTEX_STRIDE) as i32),
            first_index: #[verifier::truncate] ((i_offset / 4) as u32),
            index_count,
            world_pos: mesh.world_pos,
            allocation: Allocation {
                v_range: Range { start: v_offset, end: v_offset + v_size },
                i_range: Range { start: i_offset, end: i_offset + i_size },
            },
        }
    }
}


/// Chunk meshes placed in the megabuffers, by packed chunk position.
pub type MeshMap = FxHashMap<u64, GPUMesh>;

/// The meshes that a `MeshMap` holds, by key.
pub uninterp spec fn mesh_map(m: MeshMap) -> Map<u64, GPUMesh>;

/// `FxHashMap::default`: no meshes.
#[verifier::external_body]
fn mesh_map_new() -> (fresh: MeshMap)
    ensures
        mesh_map(fresh).is_empty(),
{
    FxHashMap::default()
}

/// `FxHashMap::insert`: `k` maps to `mesh` afterwards, whatever it held before.
#[verifier::external_body]
fn mesh_map_insert(m: &mut MeshMap, k: u64, mesh: GPUMesh)
    ensures
        mesh_map(*final(m)) == mesh_map(*old(m)).insert(k, mesh),
{
    m.insert(k, mesh);
}

/// `FxHashMap::remove`: `k` maps to nothing afterwards; the result is what it held.
#[verifier::external_body]
fn mesh_map_remove(m: &mut MeshMap, k: u64) -> (r: Option<GPUMesh>)
    ensures
        mesh_map(*final(m)) == mesh_map(*old(m)).remove(k),
        r == mesh_map(*old(m)).get(k),
{
    m.remove(&k)
}

/// The chunk meshes on the GPU and the allocator of the space they use.
pub struct ResourceManager {
    pub meshes: MeshMap,
    pub megabuffer: Megabuffer,
}

impl ResourceManager {
    /// The placed meshes, by key.
    pub open spec fn placed(&self) -> Map<u64, GPUMesh> {
        mesh_map(self.meshes)
    }

    /// The space that every placed mesh holds, in both buffers: well ordered,
    /// below the cursor, sharing no byte with another placed mesh or with a
    /// free region; and the allocator's free lists are well formed.
    pub open spec fn wf(&self) -> bool {
        let mb = self.megabuffer;
        &&& mb.wf()
        &&& forall|k: u64|
            #[trigger] self.placed().contains_key(k) ==> {
                let a = self.placed()[k].allocation;
                &&& well_ordered(a.v_range) && a.v_range.end <= mb.v_cursor
                &&& well_ordered(a.i_range) && a.i_range.end <= mb.i_cursor
            }
        &&& forall|k1: u64, k2: u64|
            #[trigger] self.placed().contains_key(k1) && #[trigger] self.placed().contains_key(k2) && k1 != k2
                ==> disjoint(self.placed()[k1].allocation.v_range, self.placed()[k2].allocation.v_range)
                && disjoint(self.placed()[k1].allocation.i_range, self.placed()[k2].allocation.i_range)
        &&& forall|k: u64, j: int|
            #[trigger] self.placed().contains_key(k) && 0 <= j < mb.free_vertex_region@.len() ==> disjoint(
                self.placed()[k].allocation.v_range,
                #[trigger] mb.free_vertex_region@[j],
            )
        &&& forall|k: u64, j: int|
            #[trigger] self.placed().contains_key(k) && 0 <= j < mb.free_index_region@.len() ==> disjoint(
                self.placed()[k].allocation.i_range,
                #[trigger] mb.free_index_region@[j],
            )
    }

    /// No meshes and an empty allocator.
    pub fn new() -> (r: Self)
        ensures
            r.wf(),
            r.placed().is_empty(),
            r.megabuffer.free_vertex_region@.len() == 0,
            r.megabuffer.free_index_region@.len() == 0,
            r.megabuffer.v_cursor == 0,
            r.megabuffer.i_cursor == 0,
    {
        ResourceManager { meshes: mesh_map_new(), megabuffer: Megabuffer::new() }
    }

    /// Places the mesh of chunk `key` in the megabuffers and records it under
    /// `key` (a mesh already recorded there is replaced; its space is not
    /// freed). The result is the placed mesh, whose allocation says where its
    /// vertex and index bytes go.
    pub fn update_chunk_mesh(&mut self, key: u64, mesh_data: &Mesh) -> (placed: GPUMesh)
        requires
            old(self).wf(),
            mesh_data.vertices@.len() * 16 <= usize::MAX,
            mesh_data.indices@.len() * 4 <= usize::MAX,
            old(self).megabuffer.can_place(
                (mesh_data.vertices@.len() * 16) as u64,
                (mesh_data.indices@.len() * 4) as u64,
            ),
        ensures
            final(self).wf(),
            ({
                let vbytes = (mesh_data.vertices@.len() * 16) as u64;
                let ibytes = (mesh_data.indices@.len() * 4) as u64;
                let (vs, vregions, vcursor) = placement(
                    old(self).megabuffer.free_vertex_region@,
                    vbytes,
                    old(self).megabuffer.v_cursor,
                );
                let (is, iregions, icursor) = placement(
                    old(self).megabuffer.free_index_region@,
                    ibytes,
                    old(self).megabuffer.i_cursor,
                );
                &&& final(self).megabuffer.free_vertex_region@ == vregions
                &&& final(self).megabuffer.v_cursor == vcursor
                &&& final(self).megabuffer.free_index_region@ == iregions
                &&& final(self).megabuffer.i_cursor == icursor
                &&& placed.allocation.v_range == (Range { start: vs, end: (vs + vbytes) as u64 })
                &&& placed.allocation.i_range == (Range { start: is, end: (is + ibytes) as u64 })
                &&& placed.base_vertex == (vs / 16) as i32
                &&& placed.first_index == (is / 4) as u32
                &&& placed.index_count == mesh_data.indices@.len() as u32
                &&& placed.world_pos == mesh_data.world_pos
            }),
            final(self).placed() == old(self).placed().insert(key, placed),
    {
        let gpu_mesh = self.megabuffer.allocate(mesh_data);
        let placed = GPUMesh {
            base_vertex: gpu_mesh.base_vertex,
            first_index: gpu_mesh.first_index,
            index_count: gpu_mesh.index_count,
            world_pos: gpu_mesh.world_pos,
            allocation: Allocation {
                v_range: Range { start: gpu_mesh.allocation.v_range.start, end: gpu_mesh.allocation.v_range.end },
                i_range: Range { start: gpu_mesh.allocation.i_range.start, end: gpu_mesh.allocation.i_range.end },
            },
        };
        mesh_map_insert(&mut self.meshes, key, gpu_mesh);
        proof {
            let ob = old(self).megabuffer;
            let vbytes = (mesh_data.vertices@.len() * 16) as u64;
            let ibytes = (mesh_data.indices@.len() * 4) as u64;
            lemma_placement_is_safe(ob.free_vertex_region@, vbytes, ob.v_cursor);
            lemma_placement_is_safe(ob.free_index_region@, ibytes, ob.i_cursor);
            assert forall|k: u64| #[trigger] old(self).placed().contains_key(k) implies {
                let a = old(self).placed()[k].allocation;
                &&& disjoint(a.v_range, placed.allocation.v_range)
                &&& disjoint(a.i_range, placed.allocation.i_range)
                &&& forall|j: int|
                    0 <= j < self.megabuffer.free_vertex_region@.len() ==> disjoint(
                        a.v_range,
                        #[trigger] self.megabuffer.free_vertex_region@[j],
                    )
                &&& forall|j: int|
                    0 <= j < self.megabuffer.free_index_region@.len() ==> disjoint(
                        a.i_range,
                        #[trigger] self.megabuffer.free_index_region@[j],
                    )
            } by {
                let a = old(self).placed()[k].allocation;
                lemma_placement_avoids(ob.free_vertex_region@, vbytes, ob.v_cursor, a.v_range);
                lemma_placement_avoids(ob.free_index_region@, ibytes, ob.i_cursor, a.i_range);
            }
            let mb = self.megabuffer;
            assert forall|k: u64| #[trigger] self.placed().contains_key(k) implies {
                let a = self.placed()[k].allocation;
                &&& well_ordered(a.v_range) && a.v_range.end <= mb.v_cursor
                &&& well_ordered(a.i_range) && a.i_range.end <= mb.i_cursor
            } by {
                if k != key {
                    assert(old(self).placed().contains_key(k));
                }
            }
            assert forall|k1: u64, k2: u64|
                #[trigger] self.placed().contains_key(k1) && #[trigger] self.placed().contains_key(k2) && k1
                    != k2 implies disjoint(self.placed()[k1].allocation.v_range, self.placed()[k2].allocation.v_range)
                && disjoint(self.placed()[k1].allocation.i_range, self.placed()[k2].allocation.i_range) by {
                if k1 != key {
                    assert(old(self).placed().contains_key(k1));
                }
                if k2 != key {
                    assert(old(self).placed().contains_key(k2));
                }
            }
            assert forall|k: u64, j: int|
                #[trigger] self.placed().contains_key(k) && 0 <= j < mb.free_vertex_region@.len() implies disjoint(
                self.placed()[k].allocation.v_range,
                #[trigger] mb.free_vertex_region@[j],
            ) by {
                if k != key {
                    assert(old(self).placed().contains_key(k));
                }
            }
            assert forall|k: u64, j: int|
                #[trigger] self.placed().contains_key(k) && 0 <= j < mb.free_index_region@.len() implies disjoint(
                self.placed()[k].allocation.i_range,
                #[trigger] mb.free_index_region@[j],
            ) by {
                if k != key {
                    assert(old(self).placed().contains_key(k));
                }
            }
        }
        placed
    }

    /// Forgets the mesh of chunk `key` and returns its space to the free lists.
    pub fn unload_chunk(&mut self, key: u64)
        requires
            old(self).wf(),
        ensures
            final(self).wf(),
            final(self).placed() == old(self).placed().remove(key),
            final(self).megabuffer.v_cursor == old(self).megabuffer.v_cursor,
            final(self).megabuffer.i_cursor == old(self).megabuffer.i_cursor,
            old(self).placed().contains_key(key) ==> {
                &&& final(self).megabuffer.free_vertex_region@ == old(self).megabuffer.free_vertex_region@.push(
                    old(self).placed()[key].allocation.v_range,
                )
                &&& final(self).megabuffer.free_index_region@ == old(self).megabuffer.free_index_region@.push(
                    old(self).placed()[key].allocation.i_range,
                )
            },
            !old(self).placed().contains_key(key) ==> final(self).megabuffer == old(self).megabuffer,
    {
        let mesh = mesh_map_remove(&mut self.meshes, key);
        if let Some(mesh) = mesh {
            proof {
                let ob = old(self).megabuffer;
                assert(old(self).placed().contains_key(key));
                assert forall|j: int| 0 <= j < ob.free_vertex_region@.len() implies disjoint(
                    #[trigger] ob.free_vertex_region@[j],
                    mesh.allocation.v_range,
                ) by {
                    assert(disjoint(mesh.allocation.v_range, ob.free_vertex_region@[j]));
                }
                assert forall|j: int| 0 <= j < ob.free_index_region@.len() implies disjoint(
                    #[trigger] ob.free_index_region@[j],
                    mesh.allocation.i_range,
                ) by {
                    assert(disjoint(mesh.allocation.i_range, ob.free_index_region@[j]));
                }
            }
            self.megabuffer.free(mesh.allocation);
            proof {
                let mb = self.megabuffer;
                let ob = old(self).megabuffer;
                assert forall|k: u64, j: int|
                    #[trigger] self.placed().contains_key(k) && 0 <= j < mb.free_vertex_region@.len() implies disjoint(
                    self.placed()[k].allocation.v_range,
                    #[trigger] mb.free_vertex_region@[j],
                ) by {
                    assert(old(self).placed().contains_key(k));
                    if j < ob.free_vertex_region@.len() {
                        assert(mb.free_vertex_region@[j] == ob.free_vertex_region@[j]);
                    } else {
                        assert(old(self).placed().contains_key(key));
                    }
                }
                assert forall|k: u64, j: int|
                    #[trigger] self.placed().contains_key(k) && 0 <= j < mb.free_index_region@.len() implies disjoint(
                    self.placed()[k].allocation.i_range,
                    #[trigger] mb.free_index_region@[j],
                ) by {
                    assert(old(self).placed().contains_key(k));
                    if j < ob.free_index_region@.len() {
                        assert(mb.free_index_region@[j] == ob.free_index_region@[j]);
                    } else {
                        assert(old(self).placed().contains_key(key));
                    }
                }
            }
        }
        proof {
            assert forall|k: u64| #[trigger] self.placed().contains_key(k) implies old(self).placed().contains_key(k)
                && self.placed()[k] == old(self).placed()[k] by {}
        }
    }
}

/// No two placed meshes share a byte of either megabuffer, and no placed mesh
/// shares a byte with space on the free lists; `update_chunk_mesh` and
/// `unload_chunk` keep this, as their `ensures` of `wf` say.
pub proof fn lemma_placed_meshes_apart(rm: ResourceManager, k1: u64, k2: u64, j: int)
    requires
        rm.wf(),
        rm.placed().contains_key(k1),
        rm.placed().contains_key(k2),
    ensures
        k1 != k2 ==> disjoint(rm.placed()[k1].allocation.v_range, rm.placed()[k2].allocation.v_range),
        k1 != k2 ==> disjoint(rm.placed()[k1].allocation.i_range, rm.placed()[k2].allocation.i_range),
        0 <= j < rm.megabuffer.free_vertex_region@.len() ==> disjoint(
            rm.placed()[k1].allocation.v_range,
            rm.megabuffer.free_vertex_region@[j],
        ),
        0 <= j < rm.megabuffer.free_index_region@.len() ==> disjoint(
            rm.placed()[k1].allocation.i_range,
            rm.megabuffer.free_index_region@[j],
        ),
{
}

} // verus!
